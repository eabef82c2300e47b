//! Character-level text helpers shared by the ledgers and the hook logic.
use vstd::prelude::*;
use vstd::utf8::{encode_scalar, encode_utf8};

verus! {

/// `String::push` appends one character.
pub assume_specification[ String::push ](s: &mut String, ch: char)
    ensures
        final(s)@ == old(s)@.push(ch),
;

/// The characters of `s`, in order.
pub fn chars_of(s: &str) -> (r: Vec<char>)
    ensures
        r@ == s@,
{
    let mut r: Vec<char> = Vec::new();
    for c in it: s.chars()
        invariant
            r@ == it.seq().take(it.index() as int),
            it.seq() == s@,
    {
        r.push(c);
    }
    r
}

/// A `String` holding exactly the characters of `v`.
pub fn string_of(v: &Vec<char>) -> (r: String)
    ensures
        r@ == v@,
{
    let mut r = String::new();
    let mut i: usize = 0;
    while i < v.len()
        invariant
            i <= v.len(),
            r@ == v@.take(i as int),
        decreases v.len() - i,
    {
        r.push(v[i]);
        i = i + 1;
        assert(v@.take(i as int) =~= v@.take((i - 1) as int).push(v@[i - 1]));
    }
    assert(v@.take(v.len() as int) =~= v@);
    r
}

/// The number of bytes in the UTF-8 encoding of `x`.
pub open spec fn byte_len(x: Seq<char>) -> nat {
    encode_utf8(x).len()
}

/// The Unicode `White_Space` property, as `char::is_whitespace` defines it.
pub open spec fn white_space(c: char) -> bool {
    let u = c as u32;
    ||| 0x9 <= u <= 0xd
    ||| u == 0x20
    ||| u == 0x85
    ||| u == 0xa0
    ||| u == 0x1680
    ||| 0x2000 <= u <= 0x200a
    ||| u == 0x2028
    ||| u == 0x2029
    ||| u == 0x202f
    ||| u == 0x205f
    ||| u == 0x3000
}

/// Every character of `x` is white space (so `x` trims to nothing).
pub open spec fn all_white(x: Seq<char>) -> bool {
    forall|i: int| 0 <= i < x.len() ==> white_space(#[trigger] x[i])
}

/// Whether `x` is nonempty after trimming and at most `n` bytes long.
pub open spec fn bounded(x: Seq<char>, n: nat) -> bool {
    !all_white(x) && byte_len(x) <= n
}

/// Whether `c` is white space.
pub fn is_white_space(c: char) -> (r: bool)
    ensures
        r == white_space(c),
{
    let u = c as u32;
    (0x9 <= u && u <= 0xd) || u == 0x20 || u == 0x85 || u == 0xa0 || u == 0x1680 || (0x2000 <= u
        && u <= 0x200a) || u == 0x2028 || u == 0x2029 || u == 0x202f || u == 0x205f || u == 0x3000
}

/// Whether `x` has some character that is not white space.
pub fn has_content(x: &str) -> (r: bool)
    ensures
        r == !all_white(x@),
{
    let cs = chars_of(x);
    let mut i: usize = 0;
    while i < cs.len()
        invariant
            i <= cs.len(),
            cs@ == x@,
            forall|j: int| 0 <= j < i ==> white_space(#[trigger] x@[j]),
        decreases cs.len() - i,
    {
        if !is_white_space(cs[i]) {
            return true;
        }
        i = i + 1;
    }
    false
}

/// Whether `x` is nonempty after trimming and at most `n` bytes long.
pub fn within_bound(x: &str, n: usize) -> (r: bool)
    ensures
        r == bounded(x@, n as nat),
{
    has_content(x) && x.as_bytes().len() <= n
}

/// Whether two character sequences are equal.
pub fn chars_eq(a: &Vec<char>, b: &Vec<char>) -> (r: bool)
    ensures
        r == (a@ == b@),
{
    if a.len() != b.len() {
        return false;
    }
    let mut i: usize = 0;
    while i < a.len()
        invariant
            i <= a.len(),
            a.len() == b.len(),
            forall|j: int| 0 <= j < i ==> a@[j] == b@[j],
        decreases a.len() - i,
    {
        if a[i] != b[i] {
            return false;
        }
        i = i + 1;
    }
    assert(a@ =~= b@);
    true
}

/// Whether two texts are equal.
pub fn text_eq(a: &str, b: &str) -> (r: bool)
    ensures
        r == (a@ == b@),
{
    chars_eq(&chars_of(a), &chars_of(b))
}

/// A copy of a list of ids.
pub fn clone_ids(v: &Vec<String>) -> (r: Vec<String>)
    ensures
        r.deep_view() == v.deep_view(),
{
    let mut r: Vec<String> = Vec::new();
    let mut i: usize = 0;
    while i < v.len()
        invariant
            i <= v.len(),
            r.deep_view() =~= v.deep_view().take(i as int),
        decreases v.len() - i,
    {
        let c = v[i].clone();
        assert(c@ == v.deep_view()[i as int]);
        let ghost before = r.deep_view();
        r.push(c);
        assert(r.deep_view() =~= before.push(v.deep_view()[i as int]));
        assert(v.deep_view().take(i + 1) =~= v.deep_view().take(i as int).push(v.deep_view()[i as int]));
        i = i + 1;
    }
    r
}

/// Whether two lists of ids are equal.
pub fn ids_eq(a: &Vec<String>, b: &Vec<String>) -> (r: bool)
    ensures
        r == (a.deep_view() == b.deep_view()),
{
    if a.len() != b.len() {
        assert(a.deep_view().len() != b.deep_view().len());
        return false;
    }
    let mut i: usize = 0;
    while i < a.len()
        invariant
            i <= a.len(),
            a.len() == b.len(),
            forall|j: int| 0 <= j < i ==> a.deep_view()[j] == b.deep_view()[j],
        decreases a.len() - i,
    {
        if a[i] != b[i] {
            assert(a.deep_view()[i as int] != b.deep_view()[i as int]);
            return false;
        }
        i = i + 1;
    }
    assert(a.deep_view() =~= b.deep_view());
    true
}

/// The texts of a list of character vectors.
pub open spec fn texts(v: Seq<Vec<char>>) -> Seq<Seq<char>> {
    v.map_values(|x: Vec<char>| x@)
}

/// A separator of pieces: white space, and with `shell` also `;`, `&` and `|`.
pub open spec fn separator(c: char, shell: bool) -> bool {
    white_space(c) || (shell && (c == ';' || c == '&' || c == '|'))
}

/// The pieces of `s` between separators, empty ones included (as `str::split`).
pub open spec fn split_on(s: Seq<char>, shell: bool) -> Seq<Seq<char>>
    decreases s.len(),
{
    if s.len() == 0 {
        seq![Seq::empty()]
    } else {
        let p = split_on(s.drop_last(), shell);
        if separator(s.last(), shell) {
            p.push(Seq::empty())
        } else {
            p.update(p.len() - 1, p.last().push(s.last()))
        }
    }
}

/// There is always at least one piece.
pub proof fn lemma_split_on_len(s: Seq<char>, shell: bool)
    ensures
        split_on(s, shell).len() >= 1,
    decreases s.len(),
{
    if s.len() > 0 {
        lemma_split_on_len(s.drop_last(), shell);
    }
}

/// The nonempty texts of `p`, in order.
pub open spec fn nonempty(p: Seq<Seq<char>>) -> Seq<Seq<char>>
    decreases p.len(),
{
    if p.len() == 0 {
        Seq::empty()
    } else if p.last().len() == 0 {
        nonempty(p.drop_last())
    } else {
        nonempty(p.drop_last()).push(p.last())
    }
}

/// The words of `s` (as `str::split_whitespace`).
pub open spec fn words(s: Seq<char>) -> Seq<Seq<char>> {
    nonempty(split_on(s, false))
}

/// `s` contains `pat` as a contiguous run.
pub open spec fn has_substring(s: Seq<char>, pat: Seq<char>) -> bool {
    exists|i: int| 0 <= i && i + pat.len() <= s.len() && #[trigger] s.subrange(i, i + pat.len()) == pat
}

/// `s` begins with `pre`.
pub open spec fn begins_with(s: Seq<char>, pre: Seq<char>) -> bool {
    pre.len() <= s.len() && s.subrange(0, pre.len() as int) == pre
}

/// `s` ends with `suf`.
pub open spec fn finishes_with(s: Seq<char>, suf: Seq<char>) -> bool {
    suf.len() <= s.len() && s.subrange(s.len() - suf.len(), s.len() as int) == suf
}

/// Splits `s` into pieces at separators, empty pieces included.
pub fn split_text(s: &Vec<char>, shell: bool) -> (r: Vec<Vec<char>>)
    ensures
        texts(r@) == split_on(s@, shell),
{
    let mut done: Vec<Vec<char>> = Vec::new();
    let mut cur: Vec<char> = Vec::new();
    let mut i: usize = 0;
    while i < s.len()
        invariant
            i <= s.len(),
            texts(done@).push(cur@) == split_on(s@.take(i as int), shell),
        decreases s.len() - i,
    {
        let c = s[i];
        assert(s@.take(i + 1).drop_last() =~= s@.take(i as int));
        assert(s@.take(i + 1).last() == c);
        let sep = is_white_space(c) || (shell && (c == ';' || c == '&' || c == '|'));
        if sep {
            let ghost before = texts(done@);
            done.push(cur);
            cur = Vec::new();
            assert(texts(done@) =~= before.push(old_cur_view(before, texts(done@))));
            assert(texts(done@).push(cur@) =~= split_on(s@.take(i + 1), shell));
        } else {
            let ghost before = texts(done@);
            let ghost prev = cur@;
            cur.push(c);
            assert(before.push(prev).update(before.len() as int, prev.push(c)) =~= before.push(cur@));
            assert(texts(done@).push(cur@) =~= split_on(s@.take(i + 1), shell));
        }
        i = i + 1;
    }
    assert(s@.take(s.len() as int) =~= s@);
    done.push(cur);
    done
}

/// The last text of `after` (a helper naming the piece just closed).
pub open spec fn old_cur_view(before: Seq<Seq<char>>, after: Seq<Seq<char>>) -> Seq<char> {
    after[before.len() as int]
}

/// The nonempty entries of `p`, in order.
pub fn keep_nonempty(p: Vec<Vec<char>>) -> (r: Vec<Vec<char>>)
    ensures
        texts(r@) == nonempty(texts(p@)),
{
    let mut r: Vec<Vec<char>> = Vec::new();
    let mut rest = p;
    let ghost orig = texts(rest@);
    let ghost n = rest.len();
    while rest.len() > 0
        invariant
            rest.len() <= n,
            n == orig.len(),
            texts(rest@) == orig.skip(n - rest.len()),
            texts(r@) == nonempty(orig.take(n - rest.len())),
        decreases rest.len(),
    {
        let ghost k = n - rest.len();
        let ghost before_rest = rest@;
        assert(texts(before_rest)[0] == orig[k]);
        let x = rest.remove(0);
        assert(rest@ =~= before_rest.drop_first());
        assert(x == before_rest[0]);
        assert(texts(rest@) =~= texts(before_rest).drop_first());
        assert(texts(rest@) =~= orig.skip(n - rest.len()));
        assert(orig.take(k + 1).drop_last() =~= orig.take(k));
        assert(orig.take(k + 1).last() == x@);
        if x.len() > 0 {
            let ghost before = texts(r@);
            r.push(x);
            assert(texts(r@) =~= before.push(orig[k]));
        }
    }
    assert(orig.take(n as int) =~= orig);
    r
}

/// The words of `s`.
pub fn words_of(s: &str) -> (r: Vec<Vec<char>>)
    ensures
        texts(r@) == words(s@),
{
    keep_nonempty(split_text(&chars_of(s), false))
}

/// Whether `s` contains `pat` as a contiguous run.
pub fn contains_text(s: &Vec<char>, pat: &Vec<char>) -> (r: bool)
    ensures
        r == has_substring(s@, pat@),
{
    if pat.len() > s.len() {
        return false;
    }
    let mut i: usize = 0;
    while i <= s.len() - pat.len()
        invariant
            pat.len() <= s.len(),
            i <= s.len() - pat.len() + 1,
            forall|k: int| 0 <= k < i ==> #[trigger] s@.subrange(k, k + pat.len()) != pat@,
        decreases s.len() + 1 - i,
    {
        let mut j: usize = 0;
        let mut same = true;
        while j < pat.len()
            invariant
                i + pat.len() <= s.len(),
                j <= pat.len(),
                same == forall|t: int| 0 <= t < j ==> s@[i + t] == pat@[t],
            decreases pat.len() - j,
        {
            if s[i + j] != pat[j] {
                same = false;
            }
            j = j + 1;
        }
        if same {
            assert(s@.subrange(i as int, i + pat.len()) =~= pat@);
            return true;
        }
        assert(s@.subrange(i as int, i + pat.len()) != pat@) by {
            let t = choose|t: int| 0 <= t < pat.len() && s@[i + t] != pat@[t];
            assert(s@.subrange(i as int, i + pat.len())[t] == s@[i + t]);
        }
        i = i + 1;
    }
    proof {
        if has_substring(s@, pat@) {
            let k = choose|k: int| 0 <= k && k + pat.len() <= s.len() && #[trigger] s@.subrange(k, k + pat.len()) == pat@;
            assert(s@.subrange(k, k + pat.len()) != pat@);
        }
    }
    false
}

/// Whether the text of `s` is `t`.
pub fn is_word(s: &Vec<char>, t: &str) -> (r: bool)
    ensures
        r == (s@ == t@),
{
    chars_eq(s, &chars_of(t))
}

/// Whether `s` begins with `pre`.
pub fn starts_with_text(s: &Vec<char>, pre: &str) -> (r: bool)
    ensures
        r == begins_with(s@, pre@),
{
    let p = chars_of(pre);
    if p.len() > s.len() {
        return false;
    }
    let mut j: usize = 0;
    while j < p.len()
        invariant
            p@ == pre@,
            p.len() <= s.len(),
            j <= p.len(),
            forall|t: int| 0 <= t < j ==> s@[t] == p@[t],
        decreases p.len() - j,
    {
        if s[j] != p[j] {
            assert(s@.subrange(0, p.len() as int)[j as int] != p@[j as int]);
            return false;
        }
        j = j + 1;
    }
    assert(s@.subrange(0, p.len() as int) =~= p@);
    true
}

/// Whether `s` ends with `suf`.
pub fn ends_with_text(s: &Vec<char>, suf: &str) -> (r: bool)
    ensures
        r == finishes_with(s@, suf@),
{
    let p = chars_of(suf);
    if p.len() > s.len() {
        return false;
    }
    let off = s.len() - p.len();
    let mut j: usize = 0;
    while j < p.len()
        invariant
            p@ == suf@,
            p.len() <= s.len(),
            off == s.len() - p.len(),
            j <= p.len(),
            forall|t: int| 0 <= t < j ==> s@[off + t] == p@[t],
        decreases p.len() - j,
    {
        if s[off + j] != p[j] {
            assert(s@.subrange(off as int, s.len() as int)[j as int] != p@[j as int]);
            return false;
        }
        j = j + 1;
    }
    assert(s@.subrange(off as int, s.len() as int) =~= p@);
    true
}

/// Decimal digits of `n`.
pub open spec fn decimal_text(n: nat) -> Seq<char>
    decreases n,
{
    if n < 10 {
        seq![((n + 48) as u8) as char]
    } else {
        decimal_text(n / 10).push((((n % 10) + 48) as u8) as char)
    }
}

/// The decimal text of `n`.
pub fn decimal(n: u64) -> (r: String)
    ensures
        r@ == decimal_text(n as nat),
    decreases n,
{
    if n < 10 {
        let mut r = String::new();
        r.push(((n as u8) + 48) as char);
        r
    } else {
        let mut r = decimal(n / 10);
        r.push((((n % 10) as u8) + 48) as char);
        r
    }
}

/// `s` cut to `n` characters when it is longer than `n` bytes.
pub open spec fn cut_text(s: Seq<char>, n: nat) -> Seq<char> {
    if byte_len(s) <= n || s.len() <= n {
        s
    } else {
        s.take(n as int)
    }
}

/// Every character takes at least one byte.
pub proof fn lemma_byte_len(x: Seq<char>)
    ensures
        byte_len(x) >= x.len(),
    decreases x.len(),
{
    if x.len() > 0 {
        lemma_byte_len(x.drop_first());
        assert(encode_utf8(x) == encode_scalar(x[0] as u32) + encode_utf8(x.drop_first()));
    }
}

/// A cut text has at most `n` characters and starts the text it was cut from.
pub proof fn lemma_cut_text(s: Seq<char>, n: nat)
    ensures
        cut_text(s, n).len() <= n,
        begins_with(s, cut_text(s, n)),
{
    lemma_byte_len(s);
    assert(s.subrange(0, cut_text(s, n).len() as int) =~= cut_text(s, n));
}

/// A text of at most `n` bytes is kept whole; a longer one with more than
/// `n` characters is cut to exactly its first `n`.
pub proof fn law_cut_keeps_or_takes(s: Seq<char>, n: nat)
    ensures
        byte_len(s) <= n ==> cut_text(s, n) == s,
        byte_len(s) > n && s.len() > n ==> cut_text(s, n) == s.take(n as int) && cut_text(s, n).len() == n,
{
}

/// `s` itself when at most `n` bytes long, else its first `n` characters.
pub fn cut(s: &str, n: usize) -> (r: String)
    ensures
        r@ == cut_text(s@, n as nat),
{
    if s.as_bytes().len() <= n {
        return s.to_owned();
    }
    let cs = chars_of(s);
    let mut r = String::new();
    let mut i: usize = 0;
    while i < n && i < cs.len()
        invariant
            i <= cs.len(),
            i <= n,
            cs@ == s@,
            r@ == cs@.take(i as int),
        decreases n - i,
    {
        r.push(cs[i]);
        i = i + 1;
        assert(r@ =~= cs@.take(i as int));
    }
    assert(cs.len() <= n ==> cs@.take(i as int) =~= cs@);
    r
}

/// Appends `t` to `s`.
pub fn push_str(s: &mut String, t: &str)
    ensures
        final(s)@ == old(s)@ + t@,
{
    s.append(t);
}

/// The characters that a trim removes.
#[derive(Clone, Copy, PartialEq, Eq, Structural)]
pub enum TrimSet {
    /// White space (as `str::trim`).
    White,
    /// Single and double quotes.
    Quotes,
    /// Double quotes.
    DoubleQuote,
}

/// Whether a trim of kind `k` removes `c`.
pub open spec fn trimmed_char(k: TrimSet, c: char) -> bool {
    match k {
        TrimSet::White => white_space(c),
        TrimSet::Quotes => c == '\'' || c == '"',
        TrimSet::DoubleQuote => c == '"',
    }
}

/// How many leading characters of `x` a trim of kind `k` removes.
pub open spec fn lead_count(x: Seq<char>, k: TrimSet) -> nat
    decreases x.len(),
{
    if x.len() == 0 || !trimmed_char(k, x[0]) {
        0
    } else {
        1 + lead_count(x.drop_first(), k)
    }
}

/// How many trailing characters of `x` a trim of kind `k` removes.
pub open spec fn trail_count(x: Seq<char>, k: TrimSet) -> nat
    decreases x.len(),
{
    if x.len() == 0 || !trimmed_char(k, x.last()) {
        0
    } else {
        1 + trail_count(x.drop_last(), k)
    }
}

/// `x` without its leading and trailing characters of kind `k` (as `str::trim_matches`).
pub open spec fn trim_text(x: Seq<char>, k: TrimSet) -> Seq<char> {
    if lead_count(x, k) >= x.len() {
        Seq::empty()
    } else {
        x.subrange(lead_count(x, k) as int, x.len() - trail_count(x, k))
    }
}

proof fn lemma_lead_count(x: Seq<char>, k: TrimSet, i: int)
    requires
        0 <= i <= x.len(),
        forall|j: int| 0 <= j < i ==> trimmed_char(k, #[trigger] x[j]),
        i == x.len() || !trimmed_char(k, x[i]),
    ensures
        lead_count(x, k) == i,
    decreases i,
{
    if i > 0 {
        assert forall|j: int| 0 <= j < i - 1 implies trimmed_char(k, #[trigger] x.drop_first()[j]) by {
            assert(x.drop_first()[j] == x[j + 1]);
        }
        lemma_lead_count(x.drop_first(), k, i - 1);
    }
}

proof fn lemma_trail_count(x: Seq<char>, k: TrimSet, i: int)
    requires
        0 <= i <= x.len(),
        forall|j: int| 0 <= j < i ==> trimmed_char(k, #[trigger] x[x.len() - 1 - j]),
        i == x.len() || !trimmed_char(k, x[x.len() - 1 - i]),
    ensures
        trail_count(x, k) == i,
    decreases i,
{
    if i > 0 {
        assert forall|j: int| 0 <= j < i - 1 implies trimmed_char(k, #[trigger] x.drop_last()[x.drop_last().len() - 1 - j]) by {
            assert(x.drop_last()[x.drop_last().len() - 1 - j] == x[x.len() - 1 - (j + 1)]);
        }
        assert(i - 1 == x.drop_last().len() || x.drop_last()[x.drop_last().len() - 1 - (i - 1)] == x[x.len() - 1 - i]);
        lemma_trail_count(x.drop_last(), k, i - 1);
    }
}

/// Trimming removes only characters of its kind, from both ends, and
/// leaves a text that neither starts nor ends with one.
pub proof fn law_trim(x: Seq<char>, k: TrimSet)
    ensures
        trim_text(x, k).len() > 0 ==> !trimmed_char(k, trim_text(x, k)[0]) && !trimmed_char(
            k,
            trim_text(x, k).last(),
        ),
        exists|i: int, j: int|
            0 <= i <= j <= x.len() && trim_text(x, k) == x.subrange(i, j) && (forall|t: int|
                0 <= t < i ==> trimmed_char(k, #[trigger] x[t])) && (forall|t: int|
                j <= t < x.len() ==> trimmed_char(k, #[trigger] x[t])),
{
    lemma_lead_facts(x, k);
    lemma_trail_facts(x, k);
    let a = lead_count(x, k) as int;
    let b = trail_count(x, k) as int;
    if a >= x.len() {
        assert(trim_text(x, k) =~= x.subrange(x.len() as int, x.len() as int));
    } else {
        assert(x.len() - b >= a) by {
            if x.len() - b < a {
                let t = x.len() - 1 - a;
                assert(0 <= t < b);
                assert(trimmed_char(k, x[x.len() - 1 - t]));
                assert(x.len() - 1 - t == a);
            }
        }
        let r = trim_text(x, k);
        if r.len() > 0 {
            assert(r[0] == x[a]);
            assert(r.last() == x[x.len() - b - 1]);
        }
        assert(forall|t: int| x.len() - b <= t < x.len() ==> trimmed_char(k, #[trigger] x[t])) by {
            assert forall|t: int| x.len() - b <= t < x.len() implies trimmed_char(k, #[trigger] x[t]) by {
                assert(x[t] == x[x.len() - 1 - (x.len() - 1 - t)]);
            }
        }
    }
}

/// The leading characters a trim removes are of its kind, and the next one
/// is not.
proof fn lemma_lead_facts(x: Seq<char>, k: TrimSet)
    ensures
        lead_count(x, k) <= x.len(),
        forall|t: int| 0 <= t < lead_count(x, k) ==> trimmed_char(k, #[trigger] x[t]),
        lead_count(x, k) < x.len() ==> !trimmed_char(k, x[lead_count(x, k) as int]),
    decreases x.len(),
{
    if x.len() > 0 && trimmed_char(k, x[0]) {
        lemma_lead_facts(x.drop_first(), k);
        assert forall|t: int| 0 <= t < lead_count(x, k) implies trimmed_char(k, #[trigger] x[t]) by {
            if t > 0 {
                assert(x[t] == x.drop_first()[t - 1]);
            }
        }
        if lead_count(x, k) < x.len() {
            assert(x[lead_count(x, k) as int] == x.drop_first()[lead_count(x.drop_first(), k) as int]);
        }
    }
}

/// The trailing characters a trim removes are of its kind, and the one
/// before them is not.
proof fn lemma_trail_facts(x: Seq<char>, k: TrimSet)
    ensures
        trail_count(x, k) <= x.len(),
        forall|t: int| 0 <= t < trail_count(x, k) ==> trimmed_char(k, #[trigger] x[x.len() - 1 - t]),
        trail_count(x, k) < x.len() ==> !trimmed_char(k, x[x.len() - 1 - trail_count(x, k)]),
    decreases x.len(),
{
    if x.len() > 0 && trimmed_char(k, x.last()) {
        lemma_trail_facts(x.drop_last(), k);
        assert forall|t: int| 0 <= t < trail_count(x, k) implies trimmed_char(k, #[trigger] x[x.len() - 1 - t]) by {
            if t > 0 {
                assert(x[x.len() - 1 - t] == x.drop_last()[x.drop_last().len() - 1 - (t - 1)]);
            }
        }
        if trail_count(x, k) < x.len() {
            assert(x[x.len() - 1 - trail_count(x, k)] == x.drop_last()[x.drop_last().len() - 1 - trail_count(
                x.drop_last(),
                k,
            )]);
        }
    }
}

/// Whether a trim of kind `k` removes `c`.
pub fn is_trimmed(k: TrimSet, c: char) -> (r: bool)
    ensures
        r == trimmed_char(k, c),
{
    match k {
        TrimSet::White => is_white_space(c),
        TrimSet::Quotes => c == '\'' || c == '"',
        TrimSet::DoubleQuote => c == '"',
    }
}

/// `x` without its leading and trailing characters of kind `k`.
pub fn trim(x: &Vec<char>, k: TrimSet) -> (r: Vec<char>)
    ensures
        r@ == trim_text(x@, k),
{
    let n = x.len();
    let mut i: usize = 0;
    while i < n && is_trimmed(k, x[i])
        invariant
            n == x.len(),
            i <= n,
            forall|j: int| 0 <= j < i ==> trimmed_char(k, #[trigger] x@[j]),
        decreases n - i,
    {
        i = i + 1;
    }
    proof {
        lemma_lead_count(x@, k, i as int);
    }
    if i == n {
        return Vec::new();
    }
    let mut t: usize = 0;
    while t < n && is_trimmed(k, x[n - 1 - t])
        invariant
            n == x.len(),
            i < n,
            !trimmed_char(k, x@[i as int]),
            t <= n,
            forall|j: int| 0 <= j < t ==> trimmed_char(k, #[trigger] x@[n - 1 - j]),
        decreases n - t,
    {
        t = t + 1;
    }
    proof {
        lemma_trail_count(x@, k, t as int);
        if t >= n - i {
            assert(trimmed_char(k, x@[n - 1 - (n - 1 - i)]));
        }
    }
    let mut r: Vec<char> = Vec::new();
    let mut j: usize = i;
    while j < n - t
        invariant
            n == x.len(),
            i <= j <= n - t,
            r@ =~= x@.subrange(i as int, j as int),
        decreases n - t - j,
    {
        r.push(x[j]);
        j = j + 1;
    }
    r
}

/// `c` lowered when it is an ASCII capital letter.
pub open spec fn ascii_lower_char(c: char) -> char {
    if 'A' <= c && c <= 'Z' {
        ((c as u8) + 32) as char
    } else {
        c
    }
}

/// `s` with ASCII capitals lowered (as `str::to_ascii_lowercase`).
pub open spec fn ascii_lower(s: Seq<char>) -> Seq<char> {
    s.map_values(|c: char| ascii_lower_char(c))
}

/// The characters of `s` with ASCII capitals lowered.
pub fn to_ascii_lower(s: &str) -> (r: Vec<char>)
    ensures
        r@ == ascii_lower(s@),
{
    let cs = chars_of(s);
    let mut r: Vec<char> = Vec::new();
    let mut i: usize = 0;
    while i < cs.len()
        invariant
            i <= cs.len(),
            cs@ == s@,
            r@ =~= ascii_lower(s@).take(i as int),
        decreases cs.len() - i,
    {
        let c = cs[i];
        let l = if 'A' <= c && c <= 'Z' {
            ((c as u8) + 32) as char
        } else {
            c
        };
        r.push(l);
        i = i + 1;
    }
    assert(ascii_lower(s@).take(cs.len() as int) =~= ascii_lower(s@));
    r
}

} // verus!
