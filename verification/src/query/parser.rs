use vstd::prelude::*;

use crate::btree::{spec_schema_type, SchemaType};
use crate::query::common::{
    spec_clause_name, spec_query_type, strings_view, CreateParsedQuery, CreateView,
    ParsedQueryResult, ParsedView, QueryClause, QueryError, QueryType, SelectParsedQuery,
    SelectView,
};
use crate::text::{
    ascii_lower, chars_equal, chars_views, contains_char, find_char, first_char_index,
    first_index, join_space, lemma_first_index, lower_chars, lower_equals, remove_char,
    spec_join_space, spec_nonempty, spec_remove_char, spec_split, spec_strip_end, spec_trim,
    split_chars, str_to_chars, string_from_chars, strip_end, trim_chars,
};

verus! {

// -------------------------------------------------------------------------------
//                          WORDS
// -------------------------------------------------------------------------------

/// The words of a query: its pieces between spaces, each trimmed, the
/// empty ones left out.
pub open spec fn spec_tokens(q: Seq<char>) -> Seq<Seq<char>> {
    spec_nonempty(spec_split(q, ' ').map_values(|p: Seq<char>| spec_trim(p)))
}

pub open spec fn is_word(w: Seq<char>) -> spec_fn(Seq<char>) -> bool {
    |t: Seq<char>| t == w
}

pub open spec fn is_lower_word(w: Seq<char>) -> spec_fn(Seq<char>) -> bool {
    |t: Seq<char>| ascii_lower(t) == w
}

pub open spec fn is_either_word(a: Seq<char>, b: Seq<char>) -> spec_fn(Seq<char>) -> bool {
    |t: Seq<char>| t == a || t == b
}

pub open spec fn has_char(c: char) -> spec_fn(Seq<char>) -> bool {
    |t: Seq<char>| t.contains(c)
}

/// `r` as an index into `ts`, matched against what the spec search found.
pub open spec fn found_at(r: Option<usize>, f: Option<int>) -> bool {
    match f {
        Some(i) => r matches Some(x) && x as int == i,
        None => r is None,
    }
}

fn tokenize(q: &[char]) -> (r: Vec<Vec<char>>)
    ensures
        chars_views(r@) == spec_tokens(q@),
{
    let pieces = split_chars(q, ' ');
    let ghost mapped = spec_split(q@, ' ').map_values(|p: Seq<char>| spec_trim(p));
    let mut out: Vec<Vec<char>> = Vec::new();
    let mut i: usize = 0;
    assert(mapped.take(0) =~= Seq::<Seq<char>>::empty());
    assert(chars_views(out@) =~= Seq::<Seq<char>>::empty());
    while i < pieces.len()
        invariant
            chars_views(pieces@) == spec_split(q@, ' '),
            mapped == spec_split(q@, ' ').map_values(|p: Seq<char>| spec_trim(p)),
            i <= pieces@.len(),
            chars_views(out@) == spec_nonempty(mapped.take(i as int)),
        decreases pieces@.len() - i,
    {
        assert(mapped.take(i + 1).drop_last() =~= mapped.take(i as int));
        assert(chars_views(pieces@)[i as int] == pieces@[i as int]@);
        let t = trim_chars(pieces[i].as_slice());
        assert(mapped.take(i + 1).last() == t@);
        if t.len() > 0 {
            let ghost before = chars_views(out@);
            out.push(t);
            assert(chars_views(out@) =~= before.push(mapped[i as int]));
        }
        i = i + 1;
    }
    assert(mapped.take(i as int) =~= mapped);
    out
}

fn find_word(ts: &Vec<Vec<char>>, w: &[char]) -> (r: Option<usize>)
    ensures
        found_at(r, first_index(chars_views(ts@), is_word(w@))),
{
    let ghost tv = chars_views(ts@);
    let mut i: usize = 0;
    while i < ts.len()
        invariant
            tv == chars_views(ts@),
            i <= tv.len(),
            forall|j: int| 0 <= j < i ==> !is_word(w@)(#[trigger] tv[j]),
        decreases tv.len() - i,
    {
        assert(tv[i as int] == ts@[i as int]@);
        if chars_equal(ts[i].as_slice(), w) {
            proof {
                lemma_first_index(tv, is_word(w@), i as int);
            }
            return Some(i);
        }
        i = i + 1;
    }
    proof {
        lemma_first_index(tv, is_word(w@), i as int);
    }
    None
}

fn find_lower_word(ts: &Vec<Vec<char>>, w: &[char]) -> (r: Option<usize>)
    ensures
        found_at(r, first_index(chars_views(ts@), is_lower_word(w@))),
{
    let ghost tv = chars_views(ts@);
    let mut i: usize = 0;
    while i < ts.len()
        invariant
            tv == chars_views(ts@),
            i <= tv.len(),
            forall|j: int| 0 <= j < i ==> !is_lower_word(w@)(#[trigger] tv[j]),
        decreases tv.len() - i,
    {
        assert(tv[i as int] == ts@[i as int]@);
        if lower_equals(ts[i].as_slice(), w) {
            proof {
                lemma_first_index(tv, is_lower_word(w@), i as int);
            }
            return Some(i);
        }
        i = i + 1;
    }
    proof {
        lemma_first_index(tv, is_lower_word(w@), i as int);
    }
    None
}

fn find_either_word(ts: &Vec<Vec<char>>, a: &[char], b: &[char]) -> (r: Option<usize>)
    ensures
        found_at(r, first_index(chars_views(ts@), is_either_word(a@, b@))),
{
    let ghost tv = chars_views(ts@);
    let mut i: usize = 0;
    while i < ts.len()
        invariant
            tv == chars_views(ts@),
            i <= tv.len(),
            forall|j: int| 0 <= j < i ==> !is_either_word(a@, b@)(#[trigger] tv[j]),
        decreases tv.len() - i,
    {
        assert(tv[i as int] == ts@[i as int]@);
        if chars_equal(ts[i].as_slice(), a) || chars_equal(ts[i].as_slice(), b) {
            proof {
                lemma_first_index(tv, is_either_word(a@, b@), i as int);
            }
            return Some(i);
        }
        i = i + 1;
    }
    proof {
        lemma_first_index(tv, is_either_word(a@, b@), i as int);
    }
    None
}

fn find_with_char(ts: &Vec<Vec<char>>, c: char) -> (r: Option<usize>)
    ensures
        found_at(r, first_index(chars_views(ts@), has_char(c))),
{
    let ghost tv = chars_views(ts@);
    let mut i: usize = 0;
    while i < ts.len()
        invariant
            tv == chars_views(ts@),
            i <= tv.len(),
            forall|j: int| 0 <= j < i ==> !has_char(c)(#[trigger] tv[j]),
        decreases tv.len() - i,
    {
        assert(tv[i as int] == ts@[i as int]@);
        if contains_char(ts[i].as_slice(), c) {
            proof {
                lemma_first_index(tv, has_char(c), i as int);
            }
            return Some(i);
        }
        i = i + 1;
    }
    proof {
        lemma_first_index(tv, has_char(c), i as int);
    }
    None
}

/// A copy of `ts[lo..hi]`.
fn slice_tokens(ts: &Vec<Vec<char>>, lo: usize, hi: usize) -> (r: Vec<Vec<char>>)
    requires
        lo <= hi <= ts@.len(),
    ensures
        chars_views(r@) == chars_views(ts@).subrange(lo as int, hi as int),
{
    let mut out: Vec<Vec<char>> = Vec::new();
    let mut i: usize = lo;
    while i < hi
        invariant
            lo <= i <= hi <= ts@.len(),
            chars_views(out@) =~= chars_views(ts@).subrange(lo as int, i as int),
        decreases hi - i,
    {
        let t = vstd::slice::slice_to_vec(ts[i].as_slice());
        let ghost before = chars_views(out@);
        out.push(t);
        assert(chars_views(out@) =~= before.push(ts@[i as int]@));
        assert(chars_views(ts@).subrange(lo as int, i + 1) =~= chars_views(ts@).subrange(lo as int, i as int).push(ts@[i as int]@));
        i = i + 1;
    }
    out
}

fn to_strings(ts: &Vec<Vec<char>>) -> (r: Vec<String>)
    ensures
        strings_view(r@) == chars_views(ts@),
{
    let mut out: Vec<String> = Vec::new();
    let mut i: usize = 0;
    while i < ts.len()
        invariant
            i <= ts@.len(),
            strings_view(out@) =~= chars_views(ts@).take(i as int),
        decreases ts@.len() - i,
    {
        let ghost before = strings_view(out@);
        let st = string_from_chars(ts[i].as_slice());
        out.push(st);
        assert(strings_view(out@) =~= before.push(ts@[i as int]@));
        assert(chars_views(ts@).take(i + 1) =~= chars_views(ts@).take(i as int).push(ts@[i as int]@));
        i = i + 1;
    }
    out
}

// -------------------------------------------------------------------------------
//                          DELIMITERS
// -------------------------------------------------------------------------------

/// The parts of a word between the first delimiter it holds, of `(`, `)`,
/// `,` and `;` in that order of preference, empty parts left out; the
/// trimmed word itself when it holds none, and nothing for a word of at most
/// one byte.
pub open spec fn spec_filter_delim(token: Seq<char>) -> Seq<Seq<char>> {
    if vstd::utf8::encode_utf8(token).len() <= 1 {
        Seq::empty()
    } else {
        let t = spec_trim(token);
        if t.contains('(') {
            spec_nonempty(spec_split(t, '('))
        } else if t.contains(')') {
            spec_nonempty(spec_split(t, ')'))
        } else if t.contains(',') {
            spec_nonempty(spec_split(t, ','))
        } else if t.contains(';') {
            spec_nonempty(spec_split(t, ';'))
        } else {
            seq![t]
        }
    }
}

proof fn lemma_utf8_len(s: Seq<char>)
    ensures
        vstd::utf8::encode_utf8(s).len() >= s.len(),
        s.len() == 1 ==> (vstd::utf8::encode_utf8(s).len() == 1 <==> (s[0] as u32) <= 0x7f),
    decreases s.len(),
{
    if s.len() > 0 {
        lemma_utf8_len(s.drop_first());
        if s.len() == 1 {
            assert(s.drop_first() =~= Seq::<char>::empty());
        }
    }
}

/// Whether the UTF-8 encoding of `s` takes at most one byte.
fn at_most_one_byte(s: &[char]) -> (r: bool)
    ensures
        r == (vstd::utf8::encode_utf8(s@).len() <= 1),
{
    proof {
        lemma_utf8_len(s@);
    }
    if s.len() == 0 {
        true
    } else if s.len() == 1 {
        (s[0] as u32) <= 0x7f
    } else {
        false
    }
}

fn filter_delim(token: &[char]) -> (r: Vec<Vec<char>>)
    ensures
        chars_views(r@) == spec_filter_delim(token@),
{
    if at_most_one_byte(token) {
        let r: Vec<Vec<char>> = Vec::new();
        assert(chars_views(r@) =~= Seq::<Seq<char>>::empty());
        return r;
    }
    let t = trim_chars(token);
    if contains_char(t.as_slice(), '(') {
        crate::text::split_nonempty(t.as_slice(), '(')
    } else if contains_char(t.as_slice(), ')') {
        crate::text::split_nonempty(t.as_slice(), ')')
    } else if contains_char(t.as_slice(), ',') {
        crate::text::split_nonempty(t.as_slice(), ',')
    } else if contains_char(t.as_slice(), ';') {
        crate::text::split_nonempty(t.as_slice(), ';')
    } else {
        let mut r: Vec<Vec<char>> = Vec::new();
        r.push(t);
        assert(chars_views(r@) =~= seq![spec_trim(token@)]);
        r
    }
}

// -------------------------------------------------------------------------------
//                          WHERE CLAUSE
// -------------------------------------------------------------------------------

/// The quotes met so far in the words `ts`: 0 none, 1 double, 2 single;
/// `None` once a word holds the other kind of quote than the first one met.
pub open spec fn spec_quote_scan(ts: Seq<Seq<char>>) -> Option<int>
    decreases ts.len(),
{
    if ts.len() == 0 {
        Some(0)
    } else {
        match spec_quote_scan(ts.drop_last()) {
            None => None,
            Some(q) => {
                let t = ts.last();
                if t.contains('"') {
                    if q == 2 {
                        None
                    } else {
                        Some(1)
                    }
                } else if t.contains('\'') {
                    if q == 1 {
                        None
                    } else {
                        Some(2)
                    }
                } else {
                    Some(q)
                }
            },
        }
    }
}

/// The field and the value text of the equality at word `e` of the words
/// `rest` of a `WHERE` clause. A lone `=` takes the words around it, quotes
/// removed from the value. A word that holds `=` with more around it is cut
/// at its first `=`: the field is what comes before (the word before when
/// nothing does), the value what comes after, joined by spaces with the
/// words that follow, quotes and trailing `;` removed.
pub open spec fn spec_where_value(rest: Seq<Seq<char>>, e: int) -> (Seq<char>, Seq<char>) {
    let tok = rest[e];
    if tok.len() > 1 {
        let p = first_char_index(tok, '=');
        let left = tok.take(p);
        let right = tok.skip(p + 1);
        let field = if left.len() > 0 {
            left
        } else {
            rest[e - 1]
        };
        let parts = (if right.len() > 0 {
            seq![right]
        } else {
            Seq::empty()
        }) + rest.skip(e + 1);
        (field, spec_strip_end(spec_remove_char(spec_remove_char(spec_join_space(parts), '\''), '"'), ';'))
    } else {
        (rest[e - 1], spec_remove_char(spec_remove_char(rest[e + 1], '\''), '"'))
    }
}

/// The equality of the `WHERE` clause of the words `ts`: none without a
/// `where` word (any case), without a word holding `=` after it, when that
/// word is the first one from `where` on, or when it is a lone `=` with no
/// word after it; an error when single and double quotes are mixed.
pub open spec fn spec_where(ts: Seq<Seq<char>>) -> Result<Option<(Seq<char>, Seq<char>)>, QueryError> {
    match first_index(ts, is_lower_word("where"@)) {
        None => Ok(None),
        Some(w) => {
            let rest = ts.skip(w);
            match first_index(rest, has_char('=')) {
                None => Ok(None),
                Some(e) => if e >= 1 && (rest[e].len() > 1 || rest.len() - 1 > e) {
                    if spec_quote_scan(rest) is None {
                        Err(QueryError::InvalidQuoting)
                    } else {
                        Ok(Some(spec_where_value(rest, e)))
                    }
                } else {
                    Ok(None)
                },
            }
        },
    }
}

fn quotes_ok(ts: &Vec<Vec<char>>) -> (r: bool)
    ensures
        r == (spec_quote_scan(chars_views(ts@)) is Some),
{
    let ghost tv = chars_views(ts@);
    let mut q: u8 = 0;
    let mut i: usize = 0;
    assert(tv.take(0) =~= Seq::<Seq<char>>::empty());
    while i < ts.len()
        invariant
            tv == chars_views(ts@),
            i <= tv.len(),
            spec_quote_scan(tv.take(i as int)) == Some(q as int),
        decreases tv.len() - i,
    {
        assert(tv.take(i + 1).drop_last() =~= tv.take(i as int));
        assert(tv.take(i + 1).last() == ts@[i as int]@);
        if contains_char(ts[i].as_slice(), '"') {
            if q == 2 {
                proof {
                    lemma_quote_scan_stays_none(tv, i + 1);
                }
                return false;
            }
            q = 1;
        } else if contains_char(ts[i].as_slice(), '\'') {
            if q == 1 {
                proof {
                    lemma_quote_scan_stays_none(tv, i + 1);
                }
                return false;
            }
            q = 2;
        }
        i = i + 1;
    }
    assert(tv.take(i as int) =~= tv);
    true
}

/// Once the quotes are mixed they stay mixed.
proof fn lemma_quote_scan_stays_none(ts: Seq<Seq<char>>, n: int)
    requires
        0 <= n <= ts.len(),
        spec_quote_scan(ts.take(n)) is None,
    ensures
        spec_quote_scan(ts) is None,
    decreases ts.len() - n,
{
    if n < ts.len() {
        assert(ts.take(n + 1).drop_last() =~= ts.take(n));
        lemma_quote_scan_stays_none(ts, n + 1);
    } else {
        assert(ts.take(n) =~= ts);
    }
}

fn where_value(rest: &Vec<Vec<char>>, e: usize) -> (r: (Vec<char>, Vec<char>))
    requires
        1 <= e < rest@.len(),
        rest@[e as int]@.len() > 1 || e < rest@.len() - 1,
        rest@[e as int]@.contains('='),
    ensures
        (r.0@, r.1@) == spec_where_value(chars_views(rest@), e as int),
{
    let ghost rv = chars_views(rest@);
    let n = rest.len();
    assert(rv[e as int] == rest@[e as int]@);
    assert(rv[e - 1] == rest@[e - 1]@);
    let tok = &rest[e];
    if tok.len() > 1 {
        let p = find_char(tok.as_slice(), '=');
        let left = vstd::slice::slice_to_vec(vstd::slice::slice_subrange(tok.as_slice(), 0, p));
        let right = vstd::slice::slice_to_vec(vstd::slice::slice_subrange(tok.as_slice(), p + 1, tok.len()));
        assert(left@ =~= rv[e as int].take(p as int));
        assert(right@ =~= rv[e as int].skip(p + 1));
        let field = if left.len() > 0 {
            left
        } else {
            vstd::slice::slice_to_vec(rest[e - 1].as_slice())
        };
        let mut parts: Vec<Vec<char>> = Vec::new();
        if right.len() > 0 {
            parts.push(right);
        }
        let ghost first = chars_views(parts@);
        assert(first =~= (if right@.len() > 0 {
            seq![right@]
        } else {
            Seq::<Seq<char>>::empty()
        }));
        let mut k: usize = e + 1;
        while k < rest.len()
            invariant
                rv == chars_views(rest@),
                e + 1 <= k <= rest@.len(),
                chars_views(parts@) =~= first + rv.subrange(e + 1, k as int),
            decreases rest@.len() - k,
        {
            let ghost before = chars_views(parts@);
            parts.push(vstd::slice::slice_to_vec(rest[k].as_slice()));
            assert(chars_views(parts@) =~= before.push(rv[k as int]));
            assert(rv.subrange(e + 1, k + 1) =~= rv.subrange(e + 1, k as int).push(rv[k as int]));
            k = k + 1;
        }
        assert(rv.subrange(e + 1, k as int) =~= rv.skip(e + 1));
        let joined = join_space(&parts);
        let no_single = remove_char(joined.as_slice(), '\'');
        let no_double = remove_char(no_single.as_slice(), '"');
        let value = strip_end(no_double.as_slice(), ';');
        (field, value)
    } else {
        assert(rv[e + 1] == rest@[e + 1]@);
        let field = vstd::slice::slice_to_vec(rest[e - 1].as_slice());
        let no_single = remove_char(rest[e + 1].as_slice(), '\'');
        let value = remove_char(no_single.as_slice(), '"');
        (field, value)
    }
}

fn parse_where_clause(ts: &Vec<Vec<char>>) -> (r: Result<Option<(Vec<char>, Vec<char>)>, QueryError>)
    ensures
        match spec_where(chars_views(ts@)) {
            Ok(None) => r matches Ok(None),
            Ok(Some((f, v))) => r matches Ok(Some((f2, v2))) && f2@ == f && v2@ == v,
            Err(e) => r matches Err(e2) && e2 == e,
        },
{
    let ghost tv = chars_views(ts@);
    let where_pos = find_lower_word(ts, str_to_chars("where").as_slice());
    let w = match where_pos {
        Some(w) => w,
        None => {
            return Ok(None);
        },
    };
    proof {
        crate::text::lemma_first_index_found(tv, is_lower_word("where"@), w as int);
    }
    let rest = slice_tokens(ts, w, ts.len());
    assert(chars_views(rest@) =~= tv.skip(w as int));
    let e = match find_with_char(&rest, '=') {
        Some(e) => e,
        None => {
            return Ok(None);
        },
    };
    proof {
        crate::text::lemma_first_index_found(chars_views(rest@), has_char('='), e as int);
        assert(chars_views(rest@)[e as int] == rest@[e as int]@);
    }
    if e >= 1 && (rest[e].len() > 1 || rest.len() - 1 > e) {
        if !quotes_ok(&rest) {
            return Err(QueryError::InvalidQuoting);
        }
        let (field, value) = where_value(&rest, e);
        Ok(Some((field, value)))
    } else {
        Ok(None)
    }
}

// -------------------------------------------------------------------------------
//                          SELECT
// -------------------------------------------------------------------------------

/// A `SELECT` of the words `ts`: the words between the first and `from`
/// are the output fields, the word after `from` the table (cut at its
/// delimiters when it holds `;`).
pub open spec fn spec_select(ts: Seq<Seq<char>>) -> Result<SelectView, QueryError> {
    match first_index(ts, is_word(spec_clause_name(QueryClause::From))) {
        None => Err(QueryError::MissingFrom),
        Some(f) => if f + 1 >= ts.len() {
            Err(QueryError::MissingTableName)
        } else {
            let raw = ts[f + 1];
            let tbl: Result<Seq<char>, QueryError> = if raw.contains(';') {
                let parts = spec_filter_delim(raw);
                if parts.len() == 0 {
                    Err(QueryError::MissingTableName)
                } else {
                    Ok(parts[0])
                }
            } else {
                Ok(raw)
            };
            match tbl {
                Err(e) => Err(e),
                Ok(tblname) => match spec_where(ts) {
                    Err(e) => Err(e),
                    Ok(w) => Ok(
                        SelectView {
                            tblname,
                            output_fields: if f >= 1 {
                                ts.subrange(1, f)
                            } else {
                                Seq::empty()
                            },
                            where_clause: w,
                        },
                    ),
                },
            }
        },
    }
}

fn handle_select_query(ts: &Vec<Vec<char>>) -> (r: Result<SelectParsedQuery, QueryError>)
    ensures
        match spec_select(chars_views(ts@)) {
            Ok(v) => r matches Ok(x) && x@ == v,
            Err(e) => r matches Err(e2) && e2 == e,
        },
{
    let ghost tv = chars_views(ts@);
    let from_clause = QueryClause::From.name();
    let from_pos = match find_word(ts, str_to_chars(from_clause.as_str()).as_slice()) {
        Some(f) => f,
        None => {
            return Err(QueryError::MissingFrom);
        },
    };
    proof {
        crate::text::lemma_first_index_found(tv, is_word(spec_clause_name(QueryClause::From)), from_pos as int);
        assert(tv.len() == ts@.len());
    }
    let ntokens = ts.len();
    if from_pos + 1 >= ts.len() {
        return Err(QueryError::MissingTableName);
    }
    let output_fields = if from_pos >= 1 {
        slice_tokens(ts, 1, from_pos)
    } else {
        let v: Vec<Vec<char>> = Vec::new();
        assert(chars_views(v@) =~= Seq::<Seq<char>>::empty());
        v
    };
    let raw = &ts[from_pos + 1];
    assert(tv[from_pos + 1] == raw@);
    let tblname = if contains_char(raw.as_slice(), ';') {
        let parts = filter_delim(raw.as_slice());
        if parts.len() == 0 {
            return Err(QueryError::MissingTableName);
        }
        assert(chars_views(parts@)[0] == parts@[0]@);
        vstd::slice::slice_to_vec(parts[0].as_slice())
    } else {
        vstd::slice::slice_to_vec(raw.as_slice())
    };
    let where_clause = match parse_where_clause(ts)? {
        Some((f, v)) => Some((string_from_chars(f.as_slice()), string_from_chars(v.as_slice()))),
        None => None,
    };
    Ok(
        SelectParsedQuery {
            tblname: string_from_chars(tblname.as_slice()),
            output_fields: to_strings(&output_fields),
            where_clause,
        },
    )
}

// -------------------------------------------------------------------------------
//                          CREATE
// -------------------------------------------------------------------------------

/// The column name that a word yields: its last delimited part when it has
/// an opening parenthesis (`tbl(col`), its first part otherwise.
pub open spec fn spec_col_word(t: Seq<char>, f: Seq<char>) -> Seq<char> {
    if t.contains('(') || t.contains(')') || t.contains(',') {
        let elem = spec_filter_delim(t);
        if elem.len() > 0 && f.len() == 0 {
            if t.contains('(') {
                elem.last()
            } else {
                elem[0]
            }
        } else {
            f
        }
    } else if f.len() == 0 {
        t
    } else {
        f
    }
}

/// The columns collected from the first `n` words of the column list `ct`,
/// with the name pending: each word may give the pending name, a word with
/// `,` (and the last word) ends it; ending an empty name is an error.
pub open spec fn spec_col_state(ct: Seq<Seq<char>>, n: int) -> Result<(Seq<Seq<char>>, Seq<char>), QueryError>
    decreases n,
{
    if n <= 0 {
        Ok((Seq::empty(), Seq::empty()))
    } else {
        match spec_col_state(ct, n - 1) {
            Err(e) => Err(e),
            Ok((cols, f)) => {
                let t = ct[n - 1];
                let f1 = spec_col_word(t, f);
                if t.contains(',') || n - 1 == ct.len() - 1 {
                    if f1.len() > 0 {
                        Ok((cols.push(f1), Seq::empty()))
                    } else {
                        Err(QueryError::MissingColumns)
                    }
                } else {
                    Ok((cols, f1))
                }
            },
        }
    }
}

/// The column names of a `CREATE` statement: read from the words between
/// the first one with `(` and the first one with `)`.
pub open spec fn spec_col_names(ts: Seq<Seq<char>>) -> Result<Seq<Seq<char>>, QueryError> {
    match (first_index(ts, has_char('(')), first_index(ts, has_char(')'))) {
        (Some(s), Some(e)) => if s > e {
            Err(QueryError::InvalidCreateQuery)
        } else {
            let ct = ts.subrange(s, e + 1);
            if s == e {
                let elem = spec_filter_delim(ct[0]);
                if elem.len() == 0 {
                    Err(QueryError::InvalidCreateQuery)
                } else {
                    let name = if elem.len() > 1 {
                        elem.last()
                    } else {
                        elem[0]
                    };
                    Ok(seq![spec_remove_char(name, ')')])
                }
            } else {
                match spec_col_state(ct, ct.len() as int) {
                    Err(e) => Err(e),
                    Ok((cols, _)) => Ok(cols),
                }
            }
        },
        _ => Err(QueryError::InvalidCreateQuery),
    }
}

/// Once collecting the columns failed it stays failed.
proof fn lemma_col_state_err(ct: Seq<Seq<char>>, n: int, m: int)
    requires
        n <= m,
        spec_col_state(ct, n) is Err,
    ensures
        spec_col_state(ct, m) == spec_col_state(ct, n),
    decreases m - n,
{
    if n < m {
        lemma_col_state_err(ct, n, m - 1);
    }
}

fn col_word(t: &[char], f: &Vec<char>) -> (r: Vec<char>)
    ensures
        r@ == spec_col_word(t@, f@),
{
    if contains_char(t, '(') || contains_char(t, ')') || contains_char(t, ',') {
        let elem = filter_delim(t);
        if elem.len() > 0 && f.len() == 0 {
            if contains_char(t, '(') {
                assert(chars_views(elem@).last() == elem@[elem@.len() - 1]@);
                vstd::slice::slice_to_vec(elem[elem.len() - 1].as_slice())
            } else {
                assert(chars_views(elem@)[0] == elem@[0]@);
                vstd::slice::slice_to_vec(elem[0].as_slice())
            }
        } else {
            vstd::slice::slice_to_vec(f.as_slice())
        }
    } else if f.len() == 0 {
        vstd::slice::slice_to_vec(t)
    } else {
        vstd::slice::slice_to_vec(f.as_slice())
    }
}

fn get_col_name(ts: &Vec<Vec<char>>) -> (r: Result<Vec<Vec<char>>, QueryError>)
    ensures
        match spec_col_names(chars_views(ts@)) {
            Ok(v) => r matches Ok(x) && chars_views(x@) == v,
            Err(e) => r matches Err(e2) && e2 == e,
        },
{
    let ghost tv = chars_views(ts@);
    let col_start_idx = match find_with_char(ts, '(') {
        Some(i) => i,
        None => {
            return Err(QueryError::InvalidCreateQuery);
        },
    };
    let col_end_idx = match find_with_char(ts, ')') {
        Some(i) => i,
        None => {
            return Err(QueryError::InvalidCreateQuery);
        },
    };
    proof {
        crate::text::lemma_first_index_found(tv, has_char('('), col_start_idx as int);
        crate::text::lemma_first_index_found(tv, has_char(')'), col_end_idx as int);
        assert(tv.len() == ts@.len());
    }
    if col_start_idx > col_end_idx {
        return Err(QueryError::InvalidCreateQuery);
    }
    // NOTE:
    // Currently we don't support the select stmt (inside create) so I am going to ignore that.
    let ntokens = ts.len();
    let col_tokens = slice_tokens(ts, col_start_idx, col_end_idx + 1);
    let ghost ct = chars_views(col_tokens@);
    let mut cols: Vec<Vec<char>> = Vec::new();
    if col_start_idx == col_end_idx {
        assert(ct[0] == col_tokens@[0]@);
        let elem = filter_delim(col_tokens[0].as_slice());
        if elem.len() == 0 {
            return Err(QueryError::InvalidCreateQuery);
        }
        let colname = if elem.len() > 1 {
            assert(chars_views(elem@).last() == elem@[elem@.len() - 1]@);
            remove_char(elem[elem.len() - 1].as_slice(), ')')
        } else {
            assert(chars_views(elem@)[0] == elem@[0]@);
            remove_char(elem[0].as_slice(), ')')
        };
        cols.push(colname);
        assert(chars_views(cols@) =~= seq![colname@]);
        return Ok(cols);
    }
    let mut field_name: Vec<char> = Vec::new();
    let mut idx: usize = 0;
    assert(cols@.len() == 0 && chars_views(cols@) =~= Seq::<Seq<char>>::empty());
    let ghost whole = spec_col_names(tv);
    assert(whole == (match spec_col_state(ct, ct.len() as int) {
        Err(e) => Err(e),
        Ok((cs, _)) => Ok(cs),
    }));
    while idx < col_tokens.len()
        invariant
            whole == spec_col_names(chars_views(ts@)),
            whole == (match spec_col_state(ct, ct.len() as int) {
                Err(e) => Err(e),
                Ok((cs, _)) => Ok(cs),
            }),
            ct == chars_views(col_tokens@),
            idx <= ct.len(),
            spec_col_state(ct, idx as int) == Ok::<(Seq<Seq<char>>, Seq<char>), QueryError>((chars_views(cols@), field_name@)),
        decreases ct.len() - idx,
    {
        let t = &col_tokens[idx];
        assert(ct[idx as int] == t@);
        let f1 = col_word(t.as_slice(), &field_name);
        if contains_char(t.as_slice(), ',') || col_tokens.len() - 1 == idx {
            if f1.len() > 0 {
                let ghost before = chars_views(cols@);
                cols.push(f1);
                assert(chars_views(cols@) =~= before.push(spec_col_word(t@, field_name@)));
                field_name = Vec::new();
                assert(field_name@ =~= Seq::<char>::empty());
            } else {
                assert(spec_col_state(ct, idx + 1) is Err);
                proof {
                    lemma_col_state_err(ct, idx + 1, ct.len() as int);
                }
                return Err(QueryError::MissingColumns);
            }
        } else {
            field_name = f1;
        }
        idx = idx + 1;
    }
    Ok(cols)
}

/// A `CREATE TABLE`: the table is the third word (the sixth after `IF`).
pub open spec fn spec_create_table(ts: Seq<Seq<char>>) -> Result<CreateView, QueryError> {
    if ts.len() < 3 || (ts[2] == "IF"@ && ts.len() < 6) {
        Err(QueryError::InvalidCreateQuery)
    } else {
        let tblname = if ts[2] == "IF"@ {
            ts[5]
        } else {
            ts[2]
        };
        match spec_col_names(ts) {
            Err(e) => Err(e),
            Ok(cols) => Ok(CreateView { tblname, schematype: SchemaType::TABLE, cols }),
        }
    }
}

/// A `CREATE INDEX`: the table is the word after `ON` (cut at its
/// delimiters when it holds `(`).
pub open spec fn spec_create_index(ts: Seq<Seq<char>>) -> Result<CreateView, QueryError> {
    match first_index(ts, is_either_word("ON"@, "on"@)) {
        None => Err(QueryError::MissingOnClause),
        Some(o) => if o + 1 >= ts.len() {
            Err(QueryError::InvalidCreateQuery)
        } else {
            let raw = ts[o + 1];
            let tbl: Result<Seq<char>, QueryError> = if raw.contains('(') {
                let parts = spec_filter_delim(raw);
                if parts.len() == 0 {
                    Err(QueryError::InvalidCreateQuery)
                } else {
                    Ok(parts[0])
                }
            } else {
                Ok(raw)
            };
            match tbl {
                Err(e) => Err(e),
                Ok(tblname) => match spec_col_names(ts) {
                    Err(e) => Err(e),
                    Ok(cols) => Ok(CreateView { tblname, schematype: SchemaType::INDEX, cols }),
                },
            }
        },
    }
}

/// A `CREATE` statement, by the schema type its second word names.
pub open spec fn spec_create(ts: Seq<Seq<char>>) -> Result<CreateView, QueryError> {
    if ts.len() < 2 {
        Err(QueryError::InvalidCreateQuery)
    } else {
        match spec_schema_type(ts[1]) {
            Err(e) => Err(QueryError::Read(e)),
            Ok(SchemaType::TABLE) => spec_create_table(ts),
            Ok(SchemaType::INDEX) => spec_create_index(ts),
            Ok(_) => Err(QueryError::UnsupportedSchemaQuery),
        }
    }
}

fn handle_create_table_query(ts: &Vec<Vec<char>>) -> (r: Result<CreateParsedQuery, QueryError>)
    ensures
        match spec_create_table(chars_views(ts@)) {
            Ok(v) => r matches Ok(x) && x@ == v,
            Err(e) => r matches Err(e2) && e2 == e,
        },
{
    let ghost tv = chars_views(ts@);
    if ts.len() < 3 {
        return Err(QueryError::InvalidCreateQuery);
    }
    assert(tv[2] == ts@[2]@);
    // If create has "IF" at idx 2 then there has to be IF NOT EXISTS which means
    // tblname is at 5th idx.
    let is_if = chars_equal(ts[2].as_slice(), str_to_chars("IF").as_slice());
    if is_if && ts.len() < 6 {
        return Err(QueryError::InvalidCreateQuery);
    }
    let tblname = if is_if {
        assert(tv[5] == ts@[5]@);
        string_from_chars(ts[5].as_slice())
    } else {
        string_from_chars(ts[2].as_slice())
    };
    let cols = get_col_name(ts)?;
    Ok(CreateParsedQuery { tblname, schematype: SchemaType::TABLE, cols: to_strings(&cols) })
}

fn handle_create_index_query(ts: &Vec<Vec<char>>) -> (r: Result<CreateParsedQuery, QueryError>)
    ensures
        match spec_create_index(chars_views(ts@)) {
            Ok(v) => r matches Ok(x) && x@ == v,
            Err(e) => r matches Err(e2) && e2 == e,
        },
{
    let ghost tv = chars_views(ts@);
    let on_clause_pos = match find_either_word(ts, str_to_chars("ON").as_slice(), str_to_chars("on").as_slice()) {
        Some(o) => o,
        None => {
            return Err(QueryError::MissingOnClause);
        },
    };
    proof {
        crate::text::lemma_first_index_found(tv, is_either_word("ON"@, "on"@), on_clause_pos as int);
        assert(tv.len() == ts@.len());
    }
    let ntokens = ts.len();
    if on_clause_pos + 1 >= ts.len() {
        return Err(QueryError::InvalidCreateQuery);
    }
    let raw = &ts[on_clause_pos + 1];
    assert(tv[on_clause_pos + 1] == raw@);
    let tblname = if contains_char(raw.as_slice(), '(') {
        let parts = filter_delim(raw.as_slice());
        if parts.len() == 0 {
            return Err(QueryError::InvalidCreateQuery);
        }
        assert(chars_views(parts@)[0] == parts@[0]@);
        string_from_chars(parts[0].as_slice())
    } else {
        string_from_chars(raw.as_slice())
    };
    let cols = get_col_name(ts)?;
    Ok(CreateParsedQuery { tblname, schematype: SchemaType::INDEX, cols: to_strings(&cols) })
}

fn handle_create_query(ts: &Vec<Vec<char>>) -> (r: Result<CreateParsedQuery, QueryError>)
    ensures
        match spec_create(chars_views(ts@)) {
            Ok(v) => r matches Ok(x) && x@ == v,
            Err(e) => r matches Err(e2) && e2 == e,
        },
{
    let ghost tv = chars_views(ts@);
    if ts.len() < 2 {
        return Err(QueryError::InvalidCreateQuery);
    }
    assert(tv[1] == ts@[1]@);
    let name = string_from_chars(ts[1].as_slice());
    let schematype = match SchemaType::from_name(name.as_str()) {
        Ok(t) => t,
        Err(e) => {
            return Err(QueryError::Read(e));
        },
    };
    match schematype {
        SchemaType::TABLE => handle_create_table_query(ts),
        SchemaType::INDEX => handle_create_index_query(ts),
        _ => Err(QueryError::UnsupportedSchemaQuery),
    }
}

// -------------------------------------------------------------------------------
//                          QUERIES
// -------------------------------------------------------------------------------

/// The parse of the query text `q`: its first word (in any case) names the
/// query type; `CREATE` and `SELECT` are parsed, the other types are
/// refused.
pub open spec fn spec_parse(q: Seq<char>) -> Result<ParsedView, QueryError> {
    let ts = spec_tokens(q);
    if ts.len() == 0 {
        Err(QueryError::InvalidQueryType)
    } else {
        match spec_query_type(ascii_lower(ts[0])) {
            Err(e) => Err(e),
            Ok(QueryType::CREATE) => match spec_create(ts) {
                Ok(c) => Ok(ParsedView::Create(c)),
                Err(e) => Err(e),
            },
            Ok(QueryType::SELECT) => match spec_select(ts) {
                Ok(v) => Ok(ParsedView::Select(v)),
                Err(e) => Err(e),
            },
            Ok(t) => Err(QueryError::UnsupportedQueryType(t)),
        }
    }
}

pub trait QueryParser {
    /// Parses the query text `query` (see [`spec_parse`]).
    fn get_parsed_query(&self, query: &str) -> (r: Result<ParsedQueryResult, QueryError>)
        ensures
            match spec_parse(query@) {
                Ok(v) => r matches Ok(x) && x@ == v,
                Err(e) => r matches Err(e2) && e2 == e,
            },
    ;
}

impl QueryParser for ParsedQueryResult {
    fn get_parsed_query(&self, query: &str) -> (r: Result<ParsedQueryResult, QueryError>) {
        let query_tokens = tokenize(str_to_chars(query).as_slice());
        let ghost tv = chars_views(query_tokens@);
        if query_tokens.len() == 0 {
            return Err(QueryError::InvalidQueryType);
        }
        assert(tv[0] == query_tokens@[0]@);
        let first = string_from_chars(lower_chars(query_tokens[0].as_slice()).as_slice());
        let query_type = QueryType::from_name(first.as_str())?;
        match query_type {
            QueryType::CREATE => {
                let create_parsed_query = handle_create_query(&query_tokens)?;
                Ok(ParsedQueryResult::CREATE(create_parsed_query))
            },
            QueryType::SELECT => {
                let select_parsed_query = handle_select_query(&query_tokens)?;
                Ok(ParsedQueryResult::SELECT(select_parsed_query))
            },
            QueryType::INSERT => Err(QueryError::UnsupportedQueryType(QueryType::INSERT)),
            QueryType::UPDATE => Err(QueryError::UnsupportedQueryType(QueryType::UPDATE)),
            QueryType::DELETE => Err(QueryError::UnsupportedQueryType(QueryType::DELETE)),
        }
    }
}

// -------------------------------------------------------------------------------
//                          LAWS OF THE WHERE CLAUSE
// -------------------------------------------------------------------------------

/// `s` with the characters `c` removed holds no `c`.
proof fn lemma_remove_char_drops_it(s: Seq<char>, c: char)
    ensures
        !spec_remove_char(s, c).contains(c),
    decreases s.len(),
{
    if s.len() > 0 {
        lemma_remove_char_drops_it(s.drop_last(), c);
        let init = spec_remove_char(s.drop_last(), c);
        if s.last() != c {
            assert forall|i: int| 0 <= i < init.push(s.last()).len() implies init.push(s.last())[i] != c by {
                if i < init.len() {
                    assert(init[i] != c);
                }
            }
        }
    }
}

/// A character that `s` does not hold is not held by `s` with another
/// character removed either.
proof fn lemma_remove_char_keeps_absent(s: Seq<char>, c: char, d: char)
    requires
        !s.contains(d),
    ensures
        !spec_remove_char(s, c).contains(d),
    decreases s.len(),
{
    if s.len() > 0 {
        assert(!s.drop_last().contains(d)) by {
            if s.drop_last().contains(d) {
                let i = choose|i: int| 0 <= i < s.drop_last().len() && s.drop_last()[i] == d;
                assert(s[i] == d);
            }
        }
        lemma_remove_char_keeps_absent(s.drop_last(), c, d);
        let init = spec_remove_char(s.drop_last(), c);
        assert(s[s.len() - 1] != d);
        assert forall|i: int| 0 <= i < init.push(s.last()).len() implies init.push(s.last())[i] != d by {
            if i < init.len() {
                assert(init[i] != d);
            }
        }
    }
}

/// Trailing characters stripped from `s` leave a prefix of `s`.
proof fn lemma_strip_end_prefix(s: Seq<char>, c: char)
    ensures
        spec_strip_end(s, c).len() <= s.len(),
        spec_strip_end(s, c) == s.take(spec_strip_end(s, c).len() as int),
    decreases s.len(),
{
    if s.len() > 0 && s.last() == c {
        lemma_strip_end_prefix(s.drop_last(), c);
        assert(s.drop_last().take(spec_strip_end(s, c).len() as int) =~= s.take(spec_strip_end(s, c).len() as int));
    } else {
        assert(s.take(s.len() as int) =~= s);
    }
}

/// The text with its single and double quotes removed is the text filtered
/// of both quote characters, all other characters kept in order.
pub proof fn lemma_unquoted_is_filtered(s: Seq<char>)
    ensures
        spec_remove_char(spec_remove_char(s, '\''), '"') == s.filter(|x: char| x != '\'' && x != '"'),
    decreases s.len(),
{
    reveal(Seq::filter);
    if s.len() > 0 {
        lemma_unquoted_is_filtered(s.drop_last());
        let a = spec_remove_char(s.drop_last(), '\'');
        if s.last() != '\'' {
            assert(a.push(s.last()).drop_last() =~= a);
        }
    }
}

/// The value of every `WHERE` equality that a query parses to holds no
/// quote character, single or double.
pub proof fn lemma_where_value_unquoted(ts: Seq<Seq<char>>)
    ensures
        spec_where(ts) matches Ok(Some((field, value))) ==> !value.contains('\'') && !value.contains('"'),
{
    if let Ok(Some((field, value))) = spec_where(ts) {
        let w = first_index(ts, is_lower_word("where"@)).unwrap();
        let rest = ts.skip(w);
        let e = first_index(rest, has_char('=')).unwrap();
        let tok = rest[e];
        let src = if tok.len() > 1 {
            let p = first_char_index(tok, '=');
            let right = tok.skip(p + 1);
            spec_join_space(
                (if right.len() > 0 {
                    seq![right]
                } else {
                    Seq::empty()
                }) + rest.skip(e + 1),
            )
        } else {
            rest[e + 1]
        };
        let unq = spec_remove_char(spec_remove_char(src, '\''), '"');
        lemma_remove_char_drops_it(src, '\'');
        lemma_remove_char_keeps_absent(spec_remove_char(src, '\''), '"', '\'');
        lemma_remove_char_drops_it(spec_remove_char(src, '\''), '"');
        if tok.len() > 1 {
            lemma_strip_end_prefix(unq, ';');
            let v = spec_strip_end(unq, ';');
            assert(v == value);
            assert forall|q: char| (q == '\'' || q == '"') && #[trigger] v.contains(q) implies false by {
                let i = choose|i: int| 0 <= i < v.len() && v[i] == q;
                assert(unq[i] == q);
            }
        }
    }
}

/// A `WHERE` equality written with a lone `=` takes the word before it as
/// the field and the word after it, with every quote character removed and
/// nothing else changed, as the value: `name = 'Bob'` gives `name` and
/// `Bob`.
pub proof fn lemma_lone_equals_value(rest: Seq<Seq<char>>, e: int)
    requires
        1 <= e,
        e + 1 < rest.len(),
        rest[e] == seq!['='],
    ensures
        spec_where_value(rest, e) == (rest[e - 1], rest[e + 1].filter(|x: char| x != '\'' && x != '"')),
{
    lemma_unquoted_is_filtered(rest[e + 1]);
}

} // verus!
