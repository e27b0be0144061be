use vstd::prelude::*;

verus! {

/// `String::push`: appends `c` to `s`. Trusted: claims that the text of `s`
/// afterwards is the old text followed by `c`.
#[verifier::external_body]
fn push_char(s: &mut String, c: char)
    ensures
        final(s)@ == old(s)@.push(c),
{
    s.push(c);
}

/// The characters of `s`, in order.
pub fn str_to_chars(s: &str) -> (r: Vec<char>)
    ensures
        r@ == s@,
{
    let mut r: Vec<char> = Vec::new();
    for c in it: s.chars()
        invariant
            it.seq() == s@,
            r@ == it.seq().take(it.index() as int),
    {
        r.push(c);
    }
    r
}

/// The text made of the characters `cs`.
pub fn string_from_chars(cs: &[char]) -> (r: String)
    ensures
        r@ == cs@,
{
    let mut r = String::new();
    let mut i: usize = 0;
    while i < cs.len()
        invariant
            i <= cs@.len(),
            r@ == cs@.take(i as int),
        decreases cs@.len() - i,
    {
        push_char(&mut r, cs[i]);
        assert(cs@.take(i + 1) =~= cs@.take(i as int).push(cs@[i as int]));
        i = i + 1;
    }
    assert(cs@.take(cs@.len() as int) =~= cs@);
    r
}

/// `c` with an ASCII upper-case letter turned into lower case.
pub open spec fn ascii_lower_char(c: char) -> char {
    if 'A' <= c && c <= 'Z' {
        ((c as u32) + 32) as char
    } else {
        c
    }
}

/// `s` with its ASCII upper-case letters turned into lower case.
pub open spec fn ascii_lower(s: Seq<char>) -> Seq<char> {
    s.map_values(|c: char| ascii_lower_char(c))
}

pub fn to_ascii_lower_char(c: char) -> (r: char)
    ensures
        r == ascii_lower_char(c),
{
    if 'A' <= c && c <= 'Z' {
        let v = ((c as u32) + 32) as u8;
        v as char
    } else {
        c
    }
}

/// Whether `a` and `b` hold the same characters.
pub fn chars_equal(a: &[char], b: &[char]) -> (r: bool)
    ensures
        r == (a@ == b@),
{
    if a.len() != b.len() {
        return false;
    }
    let mut i: usize = 0;
    while i < a.len()
        invariant
            a@.len() == b@.len(),
            i <= a@.len(),
            forall|j: int| 0 <= j < i ==> a@[j] == b@[j],
        decreases a@.len() - i,
    {
        if a[i] != b[i] {
            return false;
        }
        i = i + 1;
    }
    assert(a@ =~= b@);
    true
}

/// Whether `a`, with its ASCII letters in lower case, is `lower`.
pub fn lower_equals(a: &[char], lower: &[char]) -> (r: bool)
    ensures
        r == (ascii_lower(a@) == lower@),
{
    if a.len() != lower.len() {
        assert(ascii_lower(a@).len() != lower@.len());
        return false;
    }
    let mut i: usize = 0;
    while i < a.len()
        invariant
            a@.len() == lower@.len(),
            i <= a@.len(),
            forall|j: int| 0 <= j < i ==> ascii_lower_char(a@[j]) == lower@[j],
        decreases a@.len() - i,
    {
        if to_ascii_lower_char(a[i]) != lower[i] {
            assert(ascii_lower(a@)[i as int] != lower@[i as int]);
            return false;
        }
        i = i + 1;
    }
    assert(ascii_lower(a@) =~= lower@);
    true
}

/// Whether `s` holds the character `c`.
pub fn contains_char(s: &[char], c: char) -> (r: bool)
    ensures
        r == s@.contains(c),
{
    let mut i: usize = 0;
    while i < s.len()
        invariant
            i <= s@.len(),
            forall|j: int| 0 <= j < i ==> s@[j] != c,
        decreases s@.len() - i,
    {
        if s[i] == c {
            assert(s@[i as int] == c);
            return true;
        }
        i = i + 1;
    }
    false
}

/// Unicode `White_Space`, the property that `char::is_whitespace` and
/// `str::trim` go by.
pub open spec fn is_white_space(c: char) -> bool {
    ('\u{9}' <= c && c <= '\u{d}') || c == ' ' || c == '\u{85}' || c == '\u{a0}' || c == '\u{1680}'
        || ('\u{2000}' <= c && c <= '\u{200a}') || c == '\u{2028}' || c == '\u{2029}' || c
        == '\u{202f}' || c == '\u{205f}' || c == '\u{3000}'
}

pub fn is_whitespace(c: char) -> (r: bool)
    ensures
        r == is_white_space(c),
{
    ('\u{9}' <= c && c <= '\u{d}') || c == ' ' || c == '\u{85}' || c == '\u{a0}' || c == '\u{1680}'
        || ('\u{2000}' <= c && c <= '\u{200a}') || c == '\u{2028}' || c == '\u{2029}' || c
        == '\u{202f}' || c == '\u{205f}' || c == '\u{3000}'
}

/// The index of the first character of `s` that is not white space (the
/// length of `s` when there is none).
pub open spec fn trim_start_index(s: Seq<char>) -> int
    decreases s.len(),
{
    if s.len() > 0 && is_white_space(s[0]) {
        1 + trim_start_index(s.drop_first())
    } else {
        0
    }
}

/// The index just past the last character of `s` that is not white space (0
/// when there is none).
pub open spec fn trim_end_index(s: Seq<char>) -> int
    decreases s.len(),
{
    if s.len() > 0 && is_white_space(s.last()) {
        trim_end_index(s.drop_last())
    } else {
        s.len() as int
    }
}

/// `s` without leading and trailing white space, as `str::trim` gives it.
pub open spec fn spec_trim(s: Seq<char>) -> Seq<char> {
    let a = trim_start_index(s);
    let b = trim_end_index(s);
    if a < b {
        s.subrange(a, b)
    } else {
        Seq::empty()
    }
}

proof fn lemma_trim_start(s: Seq<char>, i: int)
    requires
        0 <= i <= s.len(),
        forall|j: int| 0 <= j < i ==> is_white_space(s[j]),
        i == s.len() || !is_white_space(s[i]),
    ensures
        trim_start_index(s) == i,
    decreases s.len(),
{
    if i > 0 {
        lemma_trim_start(s.drop_first(), i - 1);
    }
}

proof fn lemma_trim_end(s: Seq<char>, i: int)
    requires
        0 <= i <= s.len(),
        forall|j: int| i <= j < s.len() ==> is_white_space(s[j]),
        i == 0 || !is_white_space(s[i - 1]),
    ensures
        trim_end_index(s) == i,
    decreases s.len(),
{
    if i < s.len() {
        lemma_trim_end(s.drop_last(), i);
    }
}

/// `s` without leading and trailing white space.
pub fn trim_chars(s: &[char]) -> (r: Vec<char>)
    ensures
        r@ == spec_trim(s@),
{
    let mut a: usize = 0;
    while a < s.len() && is_whitespace(s[a])
        invariant
            a <= s@.len(),
            forall|j: int| 0 <= j < a ==> is_white_space(s@[j]),
        decreases s@.len() - a,
    {
        a = a + 1;
    }
    proof {
        lemma_trim_start(s@, a as int);
    }
    let mut b: usize = s.len();
    while b > 0 && is_whitespace(s[b - 1])
        invariant
            b <= s@.len(),
            forall|j: int| b <= j < s@.len() ==> is_white_space(s@[j]),
        decreases b,
    {
        b = b - 1;
    }
    proof {
        lemma_trim_end(s@, b as int);
    }
    let mut r: Vec<char> = Vec::new();
    if a < b {
        let mut i = a;
        while i < b
            invariant
                a <= i <= b <= s@.len(),
                r@ == s@.subrange(a as int, i as int),
            decreases b - i,
        {
            r.push(s[i]);
            assert(s@.subrange(a as int, i + 1) =~= s@.subrange(a as int, i as int).push(s@[i as int]));
            i = i + 1;
        }
    }
    assert(r@ =~= spec_trim(s@));
    r
}

// -------------------------------------------------------------------------------
//                          SPLITTING AND SEARCHING TEXT
// -------------------------------------------------------------------------------

pub open spec fn chars_views(v: Seq<Vec<char>>) -> Seq<Seq<char>> {
    v.map_values(|t: Vec<char>| t@)
}

/// `s` cut at every `sep`, as `str::split` cuts it: the pieces between the
/// separators, in order, so that `n` separators give `n + 1` pieces.
pub open spec fn spec_split(s: Seq<char>, sep: char) -> Seq<Seq<char>>
    decreases s.len(),
{
    if s.len() == 0 {
        seq![Seq::empty()]
    } else {
        let init = spec_split(s.drop_last(), sep);
        if s.last() == sep {
            init.push(Seq::empty())
        } else {
            init.update(init.len() - 1, init.last().push(s.last()))
        }
    }
}

/// The pieces of `s` between the separators `sep` (see [`spec_split`]).
pub fn split_chars(s: &[char], sep: char) -> (r: Vec<Vec<char>>)
    ensures
        chars_views(r@) == spec_split(s@, sep),
{
    let mut pieces: Vec<Vec<char>> = Vec::new();
    pieces.push(Vec::new());
    let mut i: usize = 0;
    assert(s@.take(0) =~= Seq::<char>::empty());
    assert(chars_views(pieces@) =~= seq![Seq::<char>::empty()]);
    while i < s.len()
        invariant
            i <= s@.len(),
            pieces@.len() >= 1,
            chars_views(pieces@) == spec_split(s@.take(i as int), sep),
        decreases s@.len() - i,
    {
        let c = s[i];
        let ghost before = chars_views(pieces@);
        assert(s@.take(i + 1).drop_last() =~= s@.take(i as int));
        assert(s@.take(i + 1).last() == c);
        if c == sep {
            pieces.push(Vec::new());
            assert(chars_views(pieces@) =~= before.push(Seq::<char>::empty()));
        } else {
            let n = pieces.len();
            let mut last = pieces.pop().unwrap();
            last.push(c);
            pieces.push(last);
            assert(chars_views(pieces@) =~= before.update(n - 1, before[n - 1].push(c)));
        }
        i = i + 1;
    }
    assert(s@.take(i as int) =~= s@);
    pieces
}

/// The pieces of `ps` that are not empty, in order.
pub open spec fn spec_nonempty(ps: Seq<Seq<char>>) -> Seq<Seq<char>>
    decreases ps.len(),
{
    if ps.len() == 0 {
        Seq::empty()
    } else {
        let init = spec_nonempty(ps.drop_last());
        if ps.last().len() == 0 {
            init
        } else {
            init.push(ps.last())
        }
    }
}

/// `s` cut at every `sep`, with the empty pieces left out.
pub fn split_nonempty(s: &[char], sep: char) -> (r: Vec<Vec<char>>)
    ensures
        chars_views(r@) == spec_nonempty(spec_split(s@, sep)),
{
    let pieces = split_chars(s, sep);
    let ghost pv = chars_views(pieces@);
    let mut out: Vec<Vec<char>> = Vec::new();
    let mut i: usize = 0;
    assert(pv.take(0) =~= Seq::<Seq<char>>::empty());
    assert(chars_views(out@) =~= Seq::<Seq<char>>::empty());
    while i < pieces.len()
        invariant
            pv == chars_views(pieces@),
            i <= pv.len(),
            chars_views(out@) == spec_nonempty(pv.take(i as int)),
        decreases pv.len() - i,
    {
        assert(pv.take(i + 1).drop_last() =~= pv.take(i as int));
        assert(pv.take(i + 1).last() == pieces@[i as int]@);
        if pieces[i].len() > 0 {
            let ghost before = chars_views(out@);
            let piece = vstd::slice::slice_to_vec(pieces[i].as_slice());
            out.push(piece);
            assert(chars_views(out@) =~= before.push(pv[i as int]));
        }
        i = i + 1;
    }
    assert(pv.take(i as int) =~= pv);
    out
}

/// `s` without the characters `c`.
pub open spec fn spec_remove_char(s: Seq<char>, c: char) -> Seq<char>
    decreases s.len(),
{
    if s.len() == 0 {
        Seq::empty()
    } else {
        let init = spec_remove_char(s.drop_last(), c);
        if s.last() == c {
            init
        } else {
            init.push(s.last())
        }
    }
}

/// `s` without the characters `c` (`str::replace` with an empty
/// replacement).
pub fn remove_char(s: &[char], c: char) -> (r: Vec<char>)
    ensures
        r@ == spec_remove_char(s@, c),
{
    let mut out: Vec<char> = Vec::new();
    let mut i: usize = 0;
    assert(s@.take(0) =~= Seq::<char>::empty());
    while i < s.len()
        invariant
            i <= s@.len(),
            out@ == spec_remove_char(s@.take(i as int), c),
        decreases s@.len() - i,
    {
        assert(s@.take(i + 1).drop_last() =~= s@.take(i as int));
        if s[i] != c {
            out.push(s[i]);
        }
        i = i + 1;
    }
    assert(s@.take(i as int) =~= s@);
    out
}

/// The index of the first of `ts` for which `p` holds.
pub open spec fn first_index(ts: Seq<Seq<char>>, p: spec_fn(Seq<char>) -> bool) -> Option<int>
    decreases ts.len(),
{
    if ts.len() == 0 {
        None
    } else if p(ts[0]) {
        Some(0)
    } else {
        match first_index(ts.drop_first(), p) {
            Some(i) => Some(i + 1),
            None => None,
        }
    }
}

/// `i` is the first index where `p` holds, or, at the end, there is none.
pub proof fn lemma_first_index(ts: Seq<Seq<char>>, p: spec_fn(Seq<char>) -> bool, i: int)
    requires
        0 <= i <= ts.len(),
        forall|j: int| 0 <= j < i ==> !p(#[trigger] ts[j]),
        i < ts.len() ==> p(ts[i]),
    ensures
        first_index(ts, p) == (if i < ts.len() { Some(i) } else { None::<int> }),
    decreases i,
{
    if i > 0 {
        assert forall|j: int| 0 <= j < i - 1 implies !p(#[trigger] ts.drop_first()[j]) by {
            assert(ts.drop_first()[j] == ts[j + 1]);
        }
        lemma_first_index(ts.drop_first(), p, i - 1);
    }
}

/// `s` with ASCII upper-case letters turned into lower case.
pub fn lower_chars(s: &[char]) -> (r: Vec<char>)
    ensures
        r@ == ascii_lower(s@),
{
    let mut out: Vec<char> = Vec::new();
    let mut i: usize = 0;
    while i < s.len()
        invariant
            i <= s@.len(),
            out@ =~= ascii_lower(s@).take(i as int),
        decreases s@.len() - i,
    {
        out.push(to_ascii_lower_char(s[i]));
        i = i + 1;
    }
    out
}

/// The index of the first `c` in `s`, the length of `s` when there is none.
pub open spec fn first_char_index(s: Seq<char>, c: char) -> int
    decreases s.len(),
{
    if s.len() == 0 {
        0
    } else if s[0] == c {
        0
    } else {
        1 + first_char_index(s.drop_first(), c)
    }
}

proof fn lemma_first_char_index(s: Seq<char>, c: char, i: int)
    requires
        0 <= i <= s.len(),
        forall|j: int| 0 <= j < i ==> s[j] != c,
        i < s.len() ==> s[i] == c,
    ensures
        first_char_index(s, c) == i,
    decreases i,
{
    if i > 0 {
        lemma_first_char_index(s.drop_first(), c, i - 1);
    }
}

/// The index of the first `c` in `s` (see [`first_char_index`]).
pub fn find_char(s: &[char], c: char) -> (r: usize)
    ensures
        r == first_char_index(s@, c),
        r <= s@.len(),
        r < s@.len() <==> s@.contains(c),
{
    let mut i: usize = 0;
    while i < s.len() && s[i] != c
        invariant
            i <= s@.len(),
            forall|j: int| 0 <= j < i ==> s@[j] != c,
        decreases s@.len() - i,
    {
        i = i + 1;
    }
    proof {
        lemma_first_char_index(s@, c, i as int);
        if i < s@.len() {
            assert(s@[i as int] == c);
        }
    }
    i
}

/// `s` without its trailing characters `c`.
pub open spec fn spec_strip_end(s: Seq<char>, c: char) -> Seq<char>
    decreases s.len(),
{
    if s.len() > 0 && s.last() == c {
        spec_strip_end(s.drop_last(), c)
    } else {
        s
    }
}

/// `s` without its trailing characters `c`.
pub fn strip_end(s: &[char], c: char) -> (r: Vec<char>)
    ensures
        r@ == spec_strip_end(s@, c),
{
    let mut n: usize = s.len();
    assert(s@.take(n as int) =~= s@);
    while n > 0 && s[n - 1] == c
        invariant
            n <= s@.len(),
            spec_strip_end(s@, c) == spec_strip_end(s@.take(n as int), c),
        decreases n,
    {
        assert(s@.take(n as int).drop_last() =~= s@.take(n - 1));
        n = n - 1;
    }
    let r = vstd::slice::slice_to_vec(vstd::slice::slice_subrange(s, 0, n));
    assert(r@ =~= s@.take(n as int));
    r
}

/// The pieces `ps` joined with single spaces between them.
pub open spec fn spec_join_space(ps: Seq<Seq<char>>) -> Seq<char>
    decreases ps.len(),
{
    if ps.len() == 0 {
        Seq::empty()
    } else if ps.len() == 1 {
        ps[0]
    } else {
        spec_join_space(ps.drop_last()) + seq![' '] + ps.last()
    }
}

/// The pieces `ps` joined with single spaces between them.
pub fn join_space(ps: &Vec<Vec<char>>) -> (r: Vec<char>)
    ensures
        r@ == spec_join_space(chars_views(ps@)),
{
    let ghost pv = chars_views(ps@);
    let mut out: Vec<char> = Vec::new();
    let mut k: usize = 0;
    assert(pv.take(0) =~= Seq::<Seq<char>>::empty());
    while k < ps.len()
        invariant
            pv == chars_views(ps@),
            k <= pv.len(),
            out@ == spec_join_space(pv.take(k as int)),
        decreases pv.len() - k,
    {
        let ghost before = out@;
        assert(pv.take(k + 1).drop_last() =~= pv.take(k as int));
        assert(pv.take(k + 1).last() == ps@[k as int]@);
        if k > 0 {
            out.push(' ');
        }
        let mut j: usize = 0;
        let ghost mid = out@;
        while j < ps[k].len()
            invariant
                k < ps@.len(),
                j <= ps@[k as int]@.len(),
                out@ == mid + ps@[k as int]@.take(j as int),
            decreases ps@[k as int]@.len() - j,
        {
            out.push(ps[k][j]);
            assert(ps@[k as int]@.take(j + 1) =~= ps@[k as int]@.take(j as int).push(ps@[k as int]@[j as int]));
            j = j + 1;
        }
        assert(ps@[k as int]@.take(j as int) =~= ps@[k as int]@);
        if k == 0 {
            assert(before =~= Seq::<char>::empty());
            assert(out@ =~= ps@[0]@);
        } else {
            assert(out@ =~= before + seq![' '] + ps@[k as int]@);
        }
        k = k + 1;
    }
    assert(pv.take(k as int) =~= pv);
    out
}

/// What the search finds satisfies the predicate.
pub proof fn lemma_first_index_found(ts: Seq<Seq<char>>, p: spec_fn(Seq<char>) -> bool, i: int)
    requires
        first_index(ts, p) == Some(i),
    ensures
        0 <= i < ts.len(),
        p(ts[i]),
    decreases ts.len(),
{
    if ts.len() > 0 && !p(ts[0]) {
        lemma_first_index_found(ts.drop_first(), p, i - 1);
    }
}

} // verus!
