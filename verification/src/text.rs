//! Character-level text operations the page and database emitters are
//! built from, each stated over the character sequence (`@`) of its
//! strings.
use vstd::prelude::*;

verus! {

/// Unicode White_Space: the characters `char::is_whitespace` accepts.
pub open spec fn is_ws(c: char) -> bool {
    let u = c as u32;
    ||| 0x09 <= u <= 0x0d
    ||| u == 0x20
    ||| u == 0x85
    ||| u == 0xa0
    ||| u == 0x1680
    ||| 0x2000 <= u <= 0x200a
    ||| u == 0x2028
    ||| u == 0x2029
    ||| u == 0x202f
    ||| u == 0x205f
    ||| u == 0x3000
}

/// `s` without its trailing whitespace.
pub open spec fn trim_end_of(s: Seq<char>) -> Seq<char>
    decreases s.len(),
{
    if s.len() > 0 && is_ws(s.last()) {
        trim_end_of(s.drop_last())
    } else {
        s
    }
}

/// `s` without its leading whitespace.
pub open spec fn trim_start_of(s: Seq<char>) -> Seq<char>
    decreases s.len(),
{
    if s.len() > 0 && is_ws(s[0]) {
        trim_start_of(s.drop_first())
    } else {
        s
    }
}

/// `s` without leading and trailing whitespace.
pub open spec fn trim_of(s: Seq<char>) -> Seq<char> {
    trim_start_of(trim_end_of(s))
}

/// Every `from` of `s` replaced by `to`.
pub open spec fn replace_of(s: Seq<char>, from: char, to: char) -> Seq<char> {
    s.map_values(|c: char| if c == from { to } else { c })
}

/// The ASCII lower-case letter of an ASCII upper-case letter; any other
/// character unchanged.
pub open spec fn ascii_lower_char(c: char) -> char {
    if 'A' <= c <= 'Z' {
        ((c as u32) + 32) as char
    } else {
        c
    }
}

/// `s` with its ASCII letters lowered.
pub open spec fn ascii_lower_of(s: Seq<char>) -> Seq<char> {
    s.map_values(|c: char| ascii_lower_char(c))
}

/// Whether `s` ends with `suffix`.
pub open spec fn ends_with_of(s: Seq<char>, suffix: Seq<char>) -> bool {
    suffix.len() <= s.len() && s.subrange(s.len() - suffix.len(), s.len() as int) == suffix
}

/// `s` without `suffix`, where it ends with it.
pub open spec fn strip_suffix_of(s: Seq<char>, suffix: Seq<char>) -> Option<Seq<char>> {
    if ends_with_of(s, suffix) {
        Some(s.subrange(0, s.len() - suffix.len()))
    } else {
        None
    }
}

/// The parts, with `sep` between each two neighbours.
pub open spec fn join_of(parts: Seq<Seq<char>>, sep: Seq<char>) -> Seq<char>
    decreases parts.len(),
{
    if parts.len() == 0 {
        Seq::empty()
    } else if parts.len() == 1 {
        parts[0]
    } else {
        join_of(parts.drop_last(), sep) + sep + parts.last()
    }
}

/// `n` copies of `s`, one after another.
pub open spec fn repeat_of(s: Seq<char>, n: nat) -> Seq<char>
    decreases n,
{
    if n == 0 {
        Seq::empty()
    } else {
        repeat_of(s, (n - 1) as nat) + s
    }
}

/// The decimal digit character of `d`.
pub open spec fn digit_char(d: nat) -> char {
    ((48 + d) as u8) as char
}

/// The decimal spelling of `n`, without leading zeros.
pub open spec fn decimal_of(n: nat) -> Seq<char>
    decreases n,
{
    if n < 10 {
        seq![digit_char(n)]
    } else {
        decimal_of(n / 10).push(digit_char(n % 10))
    }
}

/// A line without the carriage return that ended it.
pub open spec fn strip_cr(line: Seq<char>) -> Seq<char> {
    if line.len() > 0 && line.last() == '\r' {
        line.drop_last()
    } else {
        line
    }
}

/// The lines of `s` after the partial line `cur`: split at each `\n`,
/// a `\r` before the `\n` dropped, a last line without `\n` kept when
/// it is not empty.
pub open spec fn lines_from(s: Seq<char>, cur: Seq<char>) -> Seq<Seq<char>>
    decreases s.len(),
{
    if s.len() == 0 {
        if cur.len() == 0 {
            Seq::empty()
        } else {
            seq![cur]
        }
    } else if s[0] == '\n' {
        seq![strip_cr(cur)] + lines_from(s.drop_first(), Seq::empty())
    } else {
        lines_from(s.drop_first(), cur.push(s[0]))
    }
}

/// The lines of `s`, as `str::lines` gives them.
pub open spec fn lines_of(s: Seq<char>) -> Seq<Seq<char>> {
    lines_from(s, Seq::empty())
}

/// Whether `s` is empty or ends with `\n`: a text made of whole lines.
pub open spec fn whole_lines(s: Seq<char>) -> bool {
    s.len() == 0 || s.last() == '\n'
}

/// Whether `f` places the items of `x` in `y`, in order, at increasing
/// positions.
pub open spec fn embeds<A>(f: Seq<int>, x: Seq<A>, y: Seq<A>) -> bool {
    &&& f.len() == x.len()
    &&& forall|i: int| 0 <= i < f.len() ==> 0 <= #[trigger] f[i] < y.len() && y[f[i]] == x[i]
    &&& forall|i: int, j: int| 0 <= i < j < f.len() ==> #[trigger] f[i] < #[trigger] f[j]
}

/// Whether `x` is a subsequence of `y`: `y` with some items left out.
pub open spec fn is_subsequence<A>(x: Seq<A>, y: Seq<A>) -> bool {
    exists|f: Seq<int>| embeds(f, x, y)
}

/// Every sequence is a subsequence of itself.
pub proof fn lemma_subsequence_refl<A>(x: Seq<A>)
    ensures
        is_subsequence(x, x),
{
    let f = Seq::new(x.len(), |i: int| i);
    assert(embeds(f, x, x));
}

/// The empty sequence is a subsequence of every sequence.
pub proof fn lemma_subsequence_empty<A>(y: Seq<A>)
    ensures
        is_subsequence(Seq::<A>::empty(), y),
{
    assert(embeds(Seq::<int>::empty(), Seq::<A>::empty(), y));
}

/// Subsequences of two sequences, one after the other, are a
/// subsequence of the two sequences one after the other.
pub proof fn lemma_subsequence_concat<A>(x1: Seq<A>, y1: Seq<A>, x2: Seq<A>, y2: Seq<A>)
    requires
        is_subsequence(x1, y1),
        is_subsequence(x2, y2),
    ensures
        is_subsequence(x1 + x2, y1 + y2),
{
    let f1 = choose|f: Seq<int>| embeds(f, x1, y1);
    let f2 = choose|f: Seq<int>| embeds(f, x2, y2);
    let n = y1.len() as int;
    let f = f1 + Seq::new(f2.len(), |i: int| f2[i] + n);
    let x = x1 + x2;
    let y = y1 + y2;
    assert forall|i: int| 0 <= i < f.len() implies 0 <= #[trigger] f[i] < y.len() && y[f[i]] == x[i] by {
        if i >= f1.len() {
            let k = i - f1.len();
            assert(f[i] == f2[k] + n);
            assert(y[f[i]] == y2[f2[k]]);
            assert(x[i] == x2[k]);
        } else {
            assert(f[i] == f1[i]);
        }
    }
    assert forall|i: int, j: int| 0 <= i < j < f.len() implies #[trigger] f[i] < #[trigger] f[j] by {
        if j < f1.len() {
            assert(f[i] == f1[i] && f[j] == f1[j]);
        } else if i < f1.len() {
            assert(f[i] == f1[i] && f[j] == f2[j - f1.len()] + n);
        } else {
            assert(f[i] == f2[i - f1.len()] + n && f[j] == f2[j - f1.len()] + n);
        }
    }
    assert(embeds(f, x, y));
}

/// Whole lines followed by more text split into the lines of each.
pub proof fn lemma_lines_from_append(a: Seq<char>, b: Seq<char>, cur: Seq<char>)
    requires
        a.len() > 0,
        a.last() == '\n',
    ensures
        lines_from(a + b, cur) == lines_from(a, cur) + lines_from(b, Seq::empty()),
    decreases a.len(),
{
    let ab = a + b;
    assert(ab[0] == a[0]);
    assert(ab.drop_first() =~= a.drop_first() + b);
    if a[0] == '\n' {
        if a.len() == 1 {
            assert(a.drop_first() + b =~= b);
            assert(lines_from(a.drop_first(), Seq::empty()) == Seq::<Seq<char>>::empty());
            assert(lines_from(a, cur) =~= seq![strip_cr(cur)]);
        } else {
            lemma_lines_from_append(a.drop_first(), b, Seq::empty());
            assert(lines_from(ab, cur) =~= lines_from(a, cur) + lines_from(b, Seq::empty()));
        }
    } else {
        lemma_lines_from_append(a.drop_first(), b, cur.push(a[0]));
    }
}

/// The lines of whole lines followed by more text are the lines of each.
pub proof fn lemma_lines_append(a: Seq<char>, b: Seq<char>)
    requires
        whole_lines(a),
    ensures
        lines_of(a + b) == lines_of(a) + lines_of(b),
{
    if a.len() == 0 {
        assert(a + b =~= b);
        assert(lines_of(a) == Seq::<Seq<char>>::empty());
        assert(lines_of(b) + Seq::<Seq<char>>::empty() =~= lines_of(b));
        assert(lines_of(a) + lines_of(b) =~= lines_of(b));
    } else {
        lemma_lines_from_append(a, b, Seq::empty());
    }
}

/// Whole lines after whole lines are whole lines.
pub proof fn lemma_whole_lines_append(a: Seq<char>, b: Seq<char>)
    requires
        whole_lines(a),
        whole_lines(b),
    ensures
        whole_lines(a + b),
{
    if b.len() == 0 {
        assert(a + b =~= a);
    } else {
        assert((a + b).last() == b.last());
    }
}

/// Whether the lines of `a` are among the lines of `b`, in order.
pub open spec fn lines_within(a: Seq<char>, b: Seq<char>) -> bool {
    is_subsequence(lines_of(a), lines_of(b))
}

/// Texts of whole lines whose lines are among those of two others, one
/// after the other, keep that when each is followed by text whose lines
/// are among those of the other's follower.
pub proof fn lemma_lines_within_concat(a1: Seq<char>, b1: Seq<char>, a2: Seq<char>, b2: Seq<char>)
    requires
        whole_lines(a1),
        whole_lines(b1),
        lines_within(a1, b1),
        lines_within(a2, b2),
    ensures
        lines_within(a1 + a2, b1 + b2),
{
    lemma_lines_append(a1, a2);
    lemma_lines_append(b1, b2);
    lemma_subsequence_concat(lines_of(a1), lines_of(b1), lines_of(a2), lines_of(b2));
}

/// Every text's lines are among its own.
pub proof fn lemma_lines_within_refl(a: Seq<char>)
    ensures
        lines_within(a, a),
{
    lemma_subsequence_refl(lines_of(a));
}

/// The empty text has no lines.
pub proof fn lemma_lines_within_empty(b: Seq<char>)
    ensures
        lines_within(Seq::empty(), b),
{
    assert(lines_of(Seq::empty()) == Seq::<Seq<char>>::empty());
    lemma_subsequence_empty(lines_of(b));
}

/// `String::push`: the contract claims that afterwards the string holds
/// its characters from before followed by `c`.
#[verifier::external_body]
pub(crate) fn push_char(s: &mut String, c: char)
    ensures
        final(s)@ == old(s)@.push(c),
{
    s.push(c);
}

/// Appends `t` to `s`.
pub fn push_str(s: &mut String, t: &str)
    ensures
        final(s)@ == old(s)@ + t@,
{
    s.append(t);
}

/// The characters of `s`.
pub fn chars_of(s: &str) -> (r: Vec<char>)
    ensures
        r@ == s@,
{
    let mut out: Vec<char> = Vec::new();
    for c in it: s.chars()
        invariant
            out@ == it.seq().take(it.index() as int),
    {
        out.push(c);
    }
    out
}

/// The string of the characters `v[lo..hi]`.
pub fn string_of(v: &Vec<char>, lo: usize, hi: usize) -> (r: String)
    requires
        lo <= hi <= v.len(),
    ensures
        r@ == v@.subrange(lo as int, hi as int),
{
    let mut out = String::new();
    let mut i = lo;
    while i < hi
        invariant
            lo <= i <= hi <= v.len(),
            out@ == v@.subrange(lo as int, i as int),
        decreases hi - i,
    {
        push_char(&mut out, v[i]);
        i = i + 1;
    }
    out
}

/// A copy of `s`.
pub fn copy_str(s: &str) -> (r: String)
    ensures
        r@ == s@,
{
    let mut out = String::new();
    push_str(&mut out, s);
    out
}

/// Whether two strings hold the same characters.
pub fn str_eq(a: &str, b: &str) -> (r: bool)
    ensures
        r == (a@ == b@),
{
    let x = chars_of(a);
    let y = chars_of(b);
    if x.len() != y.len() {
        return false;
    }
    let mut i: usize = 0;
    while i < x.len()
        invariant
            x@ == a@,
            y@ == b@,
            x.len() == y.len(),
            i <= x.len(),
            forall|j: int| 0 <= j < i ==> x@[j] == y@[j],
        decreases x.len() - i,
    {
        if x[i] != y[i] {
            return false;
        }
        i = i + 1;
    }
    assert(x@ =~= y@);
    true
}

/// Whether `c` is whitespace.
pub fn is_whitespace(c: char) -> (r: bool)
    ensures
        r == is_ws(c),
{
    let u = c as u32;
    (0x09 <= u && u <= 0x0d) || u == 0x20 || u == 0x85 || u == 0xa0 || u == 0x1680 || (0x2000
        <= u && u <= 0x200a) || u == 0x2028 || u == 0x2029 || u == 0x202f || u == 0x205f || u
        == 0x3000
}

proof fn lemma_trim_end_take(s: Seq<char>, e: int)
    requires
        0 < e <= s.len(),
        is_ws(s[e - 1]),
    ensures
        trim_end_of(s.take(e)) == trim_end_of(s.take(e - 1)),
{
    assert(s.take(e).drop_last() =~= s.take(e - 1));
}

proof fn lemma_trim_start_skip(s: Seq<char>, b: int)
    requires
        0 <= b < s.len(),
        is_ws(s[b]),
    ensures
        trim_start_of(s.skip(b)) == trim_start_of(s.skip(b + 1)),
{
    assert(s.skip(b).drop_first() =~= s.skip(b + 1));
}

/// The number of characters of `v[..e]` that remain once trailing
/// whitespace is dropped.
fn trimmed_end(v: &Vec<char>, e: usize) -> (r: usize)
    requires
        e <= v.len(),
    ensures
        r <= e,
        trim_end_of(v@.take(e as int)) == v@.take(r as int),
{
    let mut k = e;
    while k > 0 && is_whitespace(v[k - 1])
        invariant
            k <= e <= v.len(),
            trim_end_of(v@.take(e as int)) == trim_end_of(v@.take(k as int)),
        decreases k,
    {
        proof {
            lemma_trim_end_take(v@, k as int);
        }
        k = k - 1;
    }
    k
}

/// The index of the first character of `v[b..e]` that is not whitespace,
/// or `e`.
fn trimmed_start(v: &Vec<char>, b: usize, e: usize) -> (r: usize)
    requires
        b <= e <= v.len(),
    ensures
        b <= r <= e,
        trim_start_of(v@.subrange(b as int, e as int)) == v@.subrange(r as int, e as int),
{
    let mut k = b;
    while k < e && is_whitespace(v[k])
        invariant
            b <= k <= e <= v.len(),
            trim_start_of(v@.subrange(b as int, e as int)) == trim_start_of(
                v@.subrange(k as int, e as int),
            ),
        decreases e - k,
    {
        proof {
            lemma_trim_start_skip(v@.subrange(k as int, e as int), 0);
            assert(v@.subrange(k as int, e as int).skip(1) =~= v@.subrange(k + 1, e as int));
            assert(v@.subrange(k as int, e as int).skip(0) =~= v@.subrange(k as int, e as int));
        }
        k = k + 1;
    }
    k
}

/// `s` without trailing whitespace.
pub fn trim_end(s: &str) -> (r: String)
    ensures
        r@ == trim_end_of(s@),
{
    let v = chars_of(s);
    let e = trimmed_end(&v, v.len());
    assert(v@.take(v.len() as int) =~= v@);
    assert(v@.take(e as int) =~= v@.subrange(0, e as int));
    string_of(&v, 0, e)
}

/// `s` without leading whitespace.
pub fn trim_start(s: &str) -> (r: String)
    ensures
        r@ == trim_start_of(s@),
{
    let v = chars_of(s);
    let b = trimmed_start(&v, 0, v.len());
    assert(v@.subrange(0, v.len() as int) =~= v@);
    string_of(&v, b, v.len())
}

/// `s` without leading and trailing whitespace.
pub fn trim(s: &str) -> (r: String)
    ensures
        r@ == trim_of(s@),
{
    let v = chars_of(s);
    let e = trimmed_end(&v, v.len());
    assert(v@.take(v.len() as int) =~= v@);
    let b = trimmed_start(&v, 0, e);
    assert(v@.take(e as int) =~= v@.subrange(0, e as int));
    string_of(&v, b, e)
}

/// `s` with every `from` replaced by `to`.
pub fn replace_char(s: &str, from: char, to: char) -> (r: String)
    ensures
        r@ == replace_of(s@, from, to),
{
    let v = chars_of(s);
    let mut out = String::new();
    let mut i: usize = 0;
    while i < v.len()
        invariant
            v@ == s@,
            i <= v.len(),
            out@ == replace_of(v@.take(i as int), from, to),
        decreases v.len() - i,
    {
        let c = v[i];
        if c == from {
            push_char(&mut out, to);
        } else {
            push_char(&mut out, c);
        }
        assert(v@.take(i + 1) =~= v@.take(i as int).push(c));
        i = i + 1;
    }
    assert(v@.take(v.len() as int) =~= v@);
    out
}

/// `s` with its ASCII upper-case letters lowered.
pub fn ascii_lower(s: &str) -> (r: String)
    ensures
        r@ == ascii_lower_of(s@),
{
    let v = chars_of(s);
    let mut out = String::new();
    let mut i: usize = 0;
    while i < v.len()
        invariant
            v@ == s@,
            i <= v.len(),
            out@ == ascii_lower_of(v@.take(i as int)),
        decreases v.len() - i,
    {
        let c = v[i];
        if 'A' <= c && c <= 'Z' {
            let lowered = ((c as u32) + 32) as u8 as char;
            assert(lowered == ascii_lower_char(c));
            push_char(&mut out, lowered);
        } else {
            push_char(&mut out, c);
        }
        assert(v@.take(i + 1) =~= v@.take(i as int).push(c));
        i = i + 1;
    }
    assert(v@.take(v.len() as int) =~= v@);
    out
}

/// Whether `s` ends with `suffix`.
pub fn ends_with(s: &str, suffix: &str) -> (r: bool)
    ensures
        r == ends_with_of(s@, suffix@),
{
    let v = chars_of(s);
    let w = chars_of(suffix);
    if w.len() > v.len() {
        return false;
    }
    let base = v.len() - w.len();
    let mut i: usize = 0;
    while i < w.len()
        invariant
            v@ == s@,
            w@ == suffix@,
            base + w.len() == v.len(),
            i <= w.len(),
            forall|j: int| 0 <= j < i ==> v@[base + j] == w@[j],
        decreases w.len() - i,
    {
        if v[base + i] != w[i] {
            assert(v@.subrange(base as int, v.len() as int)[i as int] != w@[i as int]);
            return false;
        }
        i = i + 1;
    }
    assert(v@.subrange(base as int, v.len() as int) =~= w@);
    true
}

/// `s` without `suffix`, where it ends with it.
pub fn strip_suffix(s: &str, suffix: &str) -> (r: Option<String>)
    ensures
        match r {
            Some(t) => strip_suffix_of(s@, suffix@) == Some(t@),
            None => strip_suffix_of(s@, suffix@) is None,
        },
{
    if ends_with(s, suffix) {
        let v = chars_of(s);
        let n = suffix.unicode_len();
        Some(string_of(&v, 0, v.len() - n))
    } else {
        None
    }
}

/// `s` without `suffix` where it ends with it, else `s` itself.
pub fn strip_suffix_or_self(s: &str, suffix: &str) -> (r: String)
    ensures
        r@ == match strip_suffix_of(s@, suffix@) {
            Some(t) => t,
            None => s@,
        },
{
    match strip_suffix(s, suffix) {
        Some(t) => t,
        None => copy_str(s),
    }
}

/// The decimal spelling of `n`.
pub fn decimal(n: usize) -> (r: String)
    ensures
        r@ == decimal_of(n as nat),
    decreases n,
{
    let d = (n % 10) as u8;
    let c = (48u8 + d) as char;
    if n < 10 {
        let mut out = String::new();
        push_char(&mut out, c);
        assert(out@ =~= seq![digit_char(n as nat)]);
        out
    } else {
        let mut out = decimal(n / 10);
        push_char(&mut out, c);
        out
    }
}

/// `n` copies of `s`.
pub fn repeat(s: &str, n: usize) -> (r: String)
    ensures
        r@ == repeat_of(s@, n as nat),
{
    let mut out = String::new();
    let mut i: usize = 0;
    while i < n
        invariant
            i <= n,
            out@ == repeat_of(s@, i as nat),
        decreases n - i,
    {
        push_str(&mut out, s);
        i = i + 1;
    }
    out
}

/// The parts, with `sep` between each two neighbours.
pub fn join(parts: &Vec<String>, sep: &str) -> (r: String)
    ensures
        r@ == join_of(parts@.map_values(|p: String| p@), sep@),
{
    let ghost views = parts@.map_values(|p: String| p@);
    let mut out = String::new();
    let mut i: usize = 0;
    while i < parts.len()
        invariant
            views == parts@.map_values(|p: String| p@),
            i <= parts.len(),
            out@ == join_of(views.take(i as int), sep@),
        decreases parts.len() - i,
    {
        if i != 0 {
            push_str(&mut out, sep);
        }
        push_str(&mut out, parts[i].as_str());
        assert(views.take(i + 1).drop_last() =~= views.take(i as int));
        i = i + 1;
    }
    assert(views.take(parts.len() as int) =~= views);
    out
}

proof fn lemma_lines_push(s: Seq<char>, cur: Seq<char>, i: int)
    requires
        0 <= i < s.len(),
    ensures
        lines_from(s.skip(i), cur) == if s[i] == '\n' {
            seq![strip_cr(cur)] + lines_from(s.skip(i + 1), Seq::empty())
        } else {
            lines_from(s.skip(i + 1), cur.push(s[i]))
        },
{
    assert(s.skip(i).drop_first() =~= s.skip(i + 1));
}

/// The lines of `s`, as `str::lines` splits them.
pub fn lines(s: &str) -> (r: Vec<String>)
    ensures
        r@.map_values(|l: String| l@) == lines_of(s@),
{
    let v = chars_of(s);
    let mut out: Vec<String> = Vec::new();
    let mut cur = String::new();
    let mut i: usize = 0;
    assert(v@.skip(0) =~= v@);
    while i < v.len()
        invariant
            v@ == s@,
            i <= v.len(),
            out@.map_values(|l: String| l@) + lines_from(v@.skip(i as int), cur@) == lines_of(
                s@,
            ),
        decreases v.len() - i,
    {
        let c = v[i];
        proof {
            lemma_lines_push(v@, cur@, i as int);
        }
        let ghost before = out@.map_values(|l: String| l@);
        let ghost old_cur = cur@;
        if c == '\n' {
            let cv = chars_of(cur.as_str());
            let mut end = cv.len();
            if end > 0 && cv[end - 1] == '\r' {
                end = end - 1;
            }
            let line = string_of(&cv, 0, end);
            assert(line@ == strip_cr(old_cur)) by {
                if old_cur.len() > 0 && old_cur.last() == '\r' {
                    assert(cv@.subrange(0, end as int) =~= old_cur.drop_last());
                } else {
                    assert(cv@.subrange(0, end as int) =~= old_cur);
                }
            }
            out.push(line);
            cur = String::new();
            assert(out@.map_values(|l: String| l@) =~= before.push(strip_cr(old_cur)));
            assert(before.push(strip_cr(old_cur)) + lines_from(v@.skip(i + 1), Seq::empty())
                =~= before + (seq![strip_cr(old_cur)] + lines_from(v@.skip(i + 1), Seq::empty())));
        } else {
            push_char(&mut cur, c);
        }
        i = i + 1;
    }
    let ghost before = out@.map_values(|l: String| l@);
    assert(v@.skip(v.len() as int) =~= Seq::<char>::empty());
    if cur.unicode_len() > 0 {
        let ghost last = cur@;
        out.push(cur);
        assert(out@.map_values(|l: String| l@) =~= before + seq![last]);
    } else {
        assert(before + Seq::<Seq<char>>::empty() =~= before);
    }
    out
}

} // verus!
