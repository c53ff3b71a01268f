//! The query language: `insert <id> '<value>'`, `select <id>` and
//! `scan <start>..<end>`, keywords in any ASCII case, an optional trailing `;`.
use vstd::prelude::*;
use vstd::string::{StringExecFns, StrSliceExecFns};
use crate::query::{QueryError, Statement};

verus! {

broadcast use vstd::string::group_string_axioms;

/// A statement in the abstract.
pub enum StatementView {
    Insert { id: u64, value: Seq<char> },
    Select { id: u64 },
    Scan { start: u64, end: u64 },
}

impl View for Statement {
    type V = StatementView;

    open spec fn view(&self) -> StatementView {
        match self {
            Statement::Insert { id, value } => StatementView::Insert { id: *id, value: value@ },
            Statement::Select { id } => StatementView::Select { id: *id },
            Statement::Scan { start, end } => StatementView::Scan { start: *start, end: *end },
        }
    }
}

pub open spec fn is_space(c: char) -> bool {
    c == ' ' || c == '\t' || c == '\n' || c == '\r'
}

pub open spec fn is_digit_char(c: char) -> bool {
    '0' <= c <= '9'
}

/// The first position at or after `i` that does not hold a space.
pub open spec fn skip_spaces(s: Seq<char>, i: int) -> int
    decreases s.len() - i,
{
    if i < 0 || i >= s.len() || !is_space(s[i]) {
        i
    } else {
        skip_spaces(s, i + 1)
    }
}

/// The first position at or after `i` that does not hold a digit.
pub open spec fn digits_end(s: Seq<char>, i: int) -> int
    decreases s.len() - i,
{
    if i < 0 || i >= s.len() || !is_digit_char(s[i]) {
        i
    } else {
        digits_end(s, i + 1)
    }
}

/// The number that a run of digit characters spells in base ten.
pub open spec fn digits_value(d: Seq<char>) -> nat
    decreases d.len(),
{
    if d.len() == 0 {
        0
    } else {
        digits_value(d.drop_last()) * 10 + (d.last() as nat - 48) as nat
    }
}

/// `c` matches the lowercase ASCII letter `k` in either case.
pub open spec fn matches_letter(c: char, k: char) -> bool {
    c == k || (65 <= (c as u32) <= 90 && (c as u32) + 32 == (k as u32))
}

/// Whether keyword `kw` (lowercase letters) stands at `i`, in any ASCII case.
pub open spec fn keyword_at(s: Seq<char>, i: int, kw: Seq<char>) -> bool {
    &&& 0 <= i
    &&& i + kw.len() <= s.len()
    &&& forall|j: int| 0 <= j < kw.len() ==> matches_letter(#[trigger] s[i + j], kw[j])
}

/// An unsigned decimal number at `i` and the position after it.
pub open spec fn integer_at(s: Seq<char>, i: int) -> Option<(u64, int)> {
    let e = digits_end(s, i);
    if e <= i || digits_value(s.subrange(i, e)) > u64::MAX {
        None
    } else {
        Some((digits_value(s.subrange(i, e)) as u64, e))
    }
}

/// The first position after `i` holding a quote.
pub open spec fn quote_after(s: Seq<char>, i: int) -> Option<int>
    decreases s.len() - i,
{
    if i + 1 >= s.len() || i < 0 {
        None
    } else if s[i + 1] == '\'' {
        Some(i + 1)
    } else {
        quote_after(s, i + 1)
    }
}

/// `'<text>'` at `i`: the text up to the next quote, and the position after it.
pub open spec fn quoted_at(s: Seq<char>, i: int) -> Option<(Seq<char>, int)> {
    if 0 <= i < s.len() && s[i] == '\'' {
        match quote_after(s, i) {
            Some(q) => Some((s.subrange(i + 1, q), q + 1)),
            None => None,
        }
    } else {
        None
    }
}

/// At least one space at `i`: the position after them.
pub open spec fn spaces1_at(s: Seq<char>, i: int) -> Option<int> {
    let j = skip_spaces(s, i);
    if j > i { Some(j) } else { None }
}

pub open spec fn insert_at(s: Seq<char>, i: int) -> Option<(StatementView, int)> {
    if !keyword_at(s, i, "insert"@) {
        None
    } else {
        match spaces1_at(s, i + 6) {
            None => None,
            Some(a) => match integer_at(s, a) {
                None => None,
                Some((id, b)) => match spaces1_at(s, b) {
                    None => None,
                    Some(c) => match quoted_at(s, c) {
                        None => None,
                        Some((value, d)) => Some((StatementView::Insert { id, value }, d)),
                    },
                },
            },
        }
    }
}

pub open spec fn select_at(s: Seq<char>, i: int) -> Option<(StatementView, int)> {
    if !keyword_at(s, i, "select"@) {
        None
    } else {
        match spaces1_at(s, i + 6) {
            None => None,
            Some(a) => match integer_at(s, a) {
                None => None,
                Some((id, b)) => Some((StatementView::Select { id }, b)),
            },
        }
    }
}

pub open spec fn scan_at(s: Seq<char>, i: int) -> Option<(StatementView, int)> {
    if !keyword_at(s, i, "scan"@) {
        None
    } else {
        match spaces1_at(s, i + 4) {
            None => None,
            Some(a) => match integer_at(s, a) {
                None => None,
                Some((start, b)) => {
                    let p = skip_spaces(s, b);
                    if p + 1 < s.len() && s[p] == '.' && s[p + 1] == '.' {
                        match integer_at(s, p + 2) {
                            None => None,
                            Some((end, e)) => Some((StatementView::Scan { start, end }, e)),
                        }
                    } else {
                        None
                    }
                },
            },
        }
    }
}

/// The statement a whole input spells, spaces around it and one `;` after them allowed.
pub open spec fn spec_parse_statement(s: Seq<char>) -> Option<StatementView> {
    let i = skip_spaces(s, 0);
    let r = match insert_at(s, i) {
        Some(x) => Some(x),
        None => match select_at(s, i) {
            Some(x) => Some(x),
            None => scan_at(s, i),
        },
    };
    match r {
        None => None,
        Some((st, e)) => {
            let j = skip_spaces(s, e);
            let k = if j < s.len() && s[j] == ';' { j + 1 } else { j };
            if k == s.len() { Some(st) } else { None }
        },
    }
}


// ---------------------------------------------------------------------------
// Keywords in any ASCII case
// ---------------------------------------------------------------------------

pub open spec fn is_ascii_letter(c: char) -> bool {
    ('A' <= c <= 'Z') || ('a' <= c <= 'z')
}

/// An ASCII letter in lowercase; any other character as it is.
pub open spec fn fold_case(c: char) -> char {
    if 'A' <= c <= 'Z' { ((c as u32) + 32) as char } else { c }
}

/// No quote stands at or before position `j`.
pub open spec fn before_any_quote(s: Seq<char>, j: int) -> bool {
    forall|k: int| 0 <= k <= j ==> s[k] != '\''
}

/// `t` is `s` with the ASCII case of some letters changed, all of them before
/// the first quote (so in keywords, never in a quoted value).
pub open spec fn case_variant(s: Seq<char>, t: Seq<char>) -> bool {
    &&& s.len() == t.len()
    &&& forall|j: int|
        0 <= j < s.len() ==> #[trigger] s[j] == t[j] || (is_ascii_letter(s[j]) && is_ascii_letter(t[j]) && fold_case(s[j])
            == fold_case(t[j]) && before_any_quote(s, j))
}

proof fn lemma_variant_chars(s: Seq<char>, t: Seq<char>, j: int)
    requires
        case_variant(s, t),
        0 <= j < s.len(),
    ensures
        is_space(s[j]) == is_space(t[j]),
        is_digit_char(s[j]) == is_digit_char(t[j]),
        is_digit_char(s[j]) ==> s[j] == t[j],
        (s[j] == '\'') == (t[j] == '\''),
        (s[j] == '.') == (t[j] == '.'),
        (s[j] == ';') == (t[j] == ';'),
        forall|k: char| 'a' <= k <= 'z' ==> matches_letter(s[j], k) == matches_letter(t[j], k),
{
    assert(s[j] == t[j] || (is_ascii_letter(s[j]) && is_ascii_letter(t[j]) && fold_case(s[j]) == fold_case(t[j])));
    assert forall|k: char| 'a' <= k <= 'z' implies matches_letter(s[j], k) == matches_letter(t[j], k) by {
        if s[j] != t[j] {
            assert(matches_letter(s[j], k) == (fold_case(s[j]) == k));
            assert(matches_letter(t[j], k) == (fold_case(t[j]) == k));
        }
    }
}

proof fn lemma_variant_skip_spaces(s: Seq<char>, t: Seq<char>, i: int)
    requires
        case_variant(s, t),
    ensures
        skip_spaces(s, i) == skip_spaces(t, i),
        i <= skip_spaces(s, i),
    decreases s.len() - i,
{
    if 0 <= i < s.len() {
        lemma_variant_chars(s, t, i);
        if is_space(s[i]) {
            lemma_variant_skip_spaces(s, t, i + 1);
        }
    }
}

proof fn lemma_variant_digits_end(s: Seq<char>, t: Seq<char>, i: int)
    requires
        case_variant(s, t),
    ensures
        digits_end(s, i) == digits_end(t, i),
        forall|k: int| i <= k < digits_end(s, i) ==> s[k] == t[k],
        i <= digits_end(s, i),
        0 <= i <= s.len() ==> digits_end(s, i) <= s.len(),
    decreases s.len() - i,
{
    if 0 <= i < s.len() {
        lemma_variant_chars(s, t, i);
        if is_digit_char(s[i]) {
            lemma_variant_digits_end(s, t, i + 1);
        }
    }
}

proof fn lemma_variant_integer_at(s: Seq<char>, t: Seq<char>, i: int)
    requires
        case_variant(s, t),
    ensures
        integer_at(s, i) == integer_at(t, i),
{
    lemma_variant_digits_end(s, t, i);
    let e = digits_end(s, i);
    if i < e {
        assert(s.subrange(i, e) =~= t.subrange(i, e));
    }
}

proof fn lemma_variant_quote_after(s: Seq<char>, t: Seq<char>, i: int)
    requires
        case_variant(s, t),
    ensures
        quote_after(s, i) == quote_after(t, i),
        quote_after(s, i) matches Some(q) ==> i < q < s.len(),
    decreases s.len() - i,
{
    if !(i + 1 >= s.len() || i < 0) {
        lemma_variant_chars(s, t, i + 1);
        if s[i + 1] != '\'' {
            lemma_variant_quote_after(s, t, i + 1);
        }
    }
}

proof fn lemma_variant_quoted_at(s: Seq<char>, t: Seq<char>, i: int)
    requires
        case_variant(s, t),
    ensures
        quoted_at(s, i) == quoted_at(t, i),
{
    if 0 <= i < s.len() {
        lemma_variant_chars(s, t, i);
        lemma_variant_quote_after(s, t, i);
        if s[i] == '\'' {
            if let Some(q) = quote_after(s, i) {
                assert forall|k: int| i + 1 <= k < q implies s[k] == t[k] by {
                    assert(s[k] == t[k] || before_any_quote(s, k));
                }
                assert(s.subrange(i + 1, q) =~= t.subrange(i + 1, q));
            }
        }
    }
}

proof fn lemma_variant_keyword_at(s: Seq<char>, t: Seq<char>, i: int, kw: Seq<char>)
    requires
        case_variant(s, t),
        forall|j: int| 0 <= j < kw.len() ==> 'a' <= #[trigger] kw[j] <= 'z',
    ensures
        keyword_at(s, i, kw) == keyword_at(t, i, kw),
{
    if 0 <= i && i + kw.len() <= s.len() {
        assert forall|j: int| 0 <= j < kw.len() implies matches_letter(#[trigger] s[i + j], kw[j]) == matches_letter(
            t[i + j],
            kw[j],
        ) by {
            lemma_variant_chars(s, t, i + j);
            assert('a' <= kw[j] <= 'z');
        }
        if keyword_at(s, i, kw) {
            assert forall|j: int| 0 <= j < kw.len() implies matches_letter(#[trigger] t[i + j], kw[j]) by {
                assert(matches_letter(s[i + j], kw[j]));
            }
        }
        if keyword_at(t, i, kw) {
            assert forall|j: int| 0 <= j < kw.len() implies matches_letter(#[trigger] s[i + j], kw[j]) by {
                assert(matches_letter(t[i + j], kw[j]));
            }
        }
    }
}

proof fn lemma_variant_spaces1_at(s: Seq<char>, t: Seq<char>, i: int)
    requires
        case_variant(s, t),
    ensures
        spaces1_at(s, i) == spaces1_at(t, i),
{
    lemma_variant_skip_spaces(s, t, i);
}

proof fn lemma_keywords_lowercase()
    ensures
        forall|j: int| 0 <= j < "insert"@.len() ==> 'a' <= #[trigger] "insert"@[j] <= 'z',
        forall|j: int| 0 <= j < "select"@.len() ==> 'a' <= #[trigger] "select"@[j] <= 'z',
        forall|j: int| 0 <= j < "scan"@.len() ==> 'a' <= #[trigger] "scan"@[j] <= 'z',
{
    reveal_strlit("insert");
    reveal_strlit("select");
    reveal_strlit("scan");
}

proof fn lemma_variant_statement_at(s: Seq<char>, t: Seq<char>, i: int)
    requires
        case_variant(s, t),
        0 <= i,
    ensures
        insert_at(s, i) == insert_at(t, i),
        select_at(s, i) == select_at(t, i),
        scan_at(s, i) == scan_at(t, i),
{
    lemma_keywords_lowercase();
    reveal_strlit("insert");
    reveal_strlit("select");
    reveal_strlit("scan");
    lemma_variant_keyword_at(s, t, i, "insert"@);
    lemma_variant_keyword_at(s, t, i, "select"@);
    lemma_variant_keyword_at(s, t, i, "scan"@);
    lemma_variant_spaces1_at(s, t, i + 6);
    lemma_variant_spaces1_at(s, t, i + 4);
    if let Some(a) = spaces1_at(s, i + 6) {
        lemma_variant_integer_at(s, t, a);
        if let Some((id, b)) = integer_at(s, a) {
            lemma_variant_spaces1_at(s, t, b);
            if let Some(c) = spaces1_at(s, b) {
                lemma_variant_quoted_at(s, t, c);
            }
        }
    }
    if let Some(a) = spaces1_at(s, i + 4) {
        lemma_variant_integer_at(s, t, a);
        if let Some((start, b)) = integer_at(s, a) {
            lemma_variant_skip_spaces(s, t, b);
            let p = skip_spaces(s, b);
            if 0 <= p && p + 1 < s.len() {
                lemma_variant_chars(s, t, p);
                lemma_variant_chars(s, t, p + 1);
            }
            lemma_variant_integer_at(s, t, p + 2);
            assert(skip_spaces(t, b) == p);
            assert(integer_at(t, a) == Some((start, b)));
            let dots_s = p + 1 < s.len() && s[p] == '.' && s[p + 1] == '.';
            let dots_t = p + 1 < t.len() && t[p] == '.' && t[p + 1] == '.';
            assert(dots_s == dots_t);
        } else {
            assert(integer_at(t, a) is None);
        }
    }
    assert(keyword_at(s, i, "scan"@) == keyword_at(t, i, "scan"@));
    assert(spaces1_at(s, i + 4) == spaces1_at(t, i + 4));
}

/// Keywords are read in any ASCII case: changing the case of letters before
/// the first quote (the keyword's letters, in particular) does not change what
/// a statement parses to, or whether it parses.
pub proof fn law_keywords_ignore_case(s: Seq<char>, t: Seq<char>)
    requires
        case_variant(s, t),
    ensures
        spec_parse_statement(s) == spec_parse_statement(t),
{
    lemma_variant_skip_spaces(s, t, 0);
    let i = skip_spaces(s, 0);
    lemma_variant_statement_at(s, t, i);
    let r = match insert_at(s, i) {
        Some(x) => Some(x),
        None => match select_at(s, i) {
            Some(x) => Some(x),
            None => scan_at(s, i),
        },
    };
    if let Some((st, e)) = r {
        lemma_variant_skip_spaces(s, t, e);
        let j = skip_spaces(s, e);
        if 0 <= j < s.len() {
            lemma_variant_chars(s, t, j);
        }
    }
}

/// A keyword stands at a position exactly when the text there, with its ASCII
/// letters lowercased, is the keyword.
pub proof fn law_keyword_match_is_case_insensitive(s: Seq<char>, i: int, kw: Seq<char>)
    requires
        forall|j: int| 0 <= j < kw.len() ==> 'a' <= #[trigger] kw[j] <= 'z',
    ensures
        keyword_at(s, i, kw) <==> (0 <= i && i + kw.len() <= s.len() && forall|j: int|
            0 <= j < kw.len() ==> fold_case(#[trigger] s[i + j]) == kw[j]),
{
    if 0 <= i && i + kw.len() <= s.len() {
        assert forall|j: int| 0 <= j < kw.len() implies matches_letter(#[trigger] s[i + j], kw[j]) == (fold_case(
            s[i + j],
        ) == kw[j]) by {
            let c = s[i + j];
            let k = kw[j];
            if 'A' <= c <= 'Z' {
                assert(fold_case(c) as u32 == c as u32 + 32);
            }
        }
    }
}

// ---------------------------------------------------------------------------
// The parser
// ---------------------------------------------------------------------------

pub(crate) fn collect_chars(input: &str) -> (v: Vec<char>)
    ensures
        v@ == input@,
{
    let mut v: Vec<char> = Vec::new();
    for c in it: input.chars()
        invariant
            v@ == it.seq().take(it.index() as int),
    {
        v.push(c);
    }
    assert(v@ =~= input@);
    v
}

fn skip_spaces_from(s: &Vec<char>, i: usize) -> (r: usize)
    requires
        i <= s@.len(),
    ensures
        r == skip_spaces(s@, i as int),
        i <= r <= s@.len(),
{
    let mut j = i;
    while j < s.len() && (s[j] == ' ' || s[j] == '\t' || s[j] == '\n' || s[j] == '\r')
        invariant
            i <= j <= s@.len(),
            skip_spaces(s@, i as int) == skip_spaces(s@, j as int),
        decreases s.len() - j,
    {
        j = j + 1;
    }
    j
}

fn keyword_matches(s: &Vec<char>, i: usize, kw: &[char]) -> (r: bool)
    requires
        i <= s@.len(),
        forall|j: int| 0 <= j < kw@.len() ==> 'a' <= #[trigger] kw@[j] <= 'z',
    ensures
        r == keyword_at(s@, i as int, kw@),
{
    if kw.len() > s.len() - i {
        return false;
    }
    let mut j: usize = 0;
    while j < kw.len()
        invariant
            j <= kw@.len(),
            i + kw@.len() <= s@.len(),
            s@.len() == s.len(),
            forall|m: int| 0 <= m < j ==> matches_letter(#[trigger] s@[i + m], kw@[m]),
        decreases kw.len() - j,
    {
        let c = s[i + j];
        let k = kw[j];
        let cu = c as u32;
        let ku = k as u32;
        let upper = cu >= 65 && cu <= 90 && cu + 32 == ku;
        if !(c == k || upper) {
            assert(!matches_letter(s@[i + j], kw@[j as int]));
            return false;
        }
        j = j + 1;
    }
    true
}

/// An unsigned decimal number at `i`.
pub fn unsigned_integer(s: &Vec<char>, i: usize) -> (r: Option<(u64, usize)>)
    requires
        i <= s@.len(),
    ensures
        match (r, integer_at(s@, i as int)) {
            (Some((v, e)), Some((w, f))) => v == w && e == f,
            (None, None) => true,
            _ => false,
        },
        r matches Some((v, e)) ==> e <= s@.len(),
{
    let mut j = i;
    let mut acc: u128 = 0;
    let mut over = false;
    while j < s.len() && '0' <= s[j] && s[j] <= '9'
        invariant
            i <= j <= s@.len(),
            digits_end(s@, i as int) == digits_end(s@, j as int),
            !over ==> acc == digits_value(s@.subrange(i as int, j as int)) && acc <= u64::MAX,
            over ==> digits_value(s@.subrange(i as int, j as int)) > u64::MAX,
        decreases s.len() - j,
    {
        let d = (s[j] as u32 - 48) as u128;
        assert(s@.subrange(i as int, j + 1).drop_last() =~= s@.subrange(i as int, j as int));
        if !over {
            let next = acc * 10 + d;
            if next > u64::MAX as u128 {
                over = true;
            } else {
                acc = next;
            }
        }
        j = j + 1;
    }
    if j == i || over {
        None
    } else {
        Some((acc as u64, j))
    }
}

/// `'<text>'` at `i`: the text and the position after the closing quote.
pub fn quoted_string(input: &str, s: &Vec<char>, i: usize) -> (r: Option<(String, usize)>)
    requires
        s@ == input@,
        i <= s@.len(),
    ensures
        match (r, quoted_at(s@, i as int)) {
            (Some((v, e)), Some((w, f))) => v@ == w && e == f,
            (None, None) => true,
            _ => false,
        },
        r matches Some((v, e)) ==> e <= s@.len(),
{
    if i >= s.len() || s[i] != '\'' {
        return None;
    }
    let mut q = i + 1;
    while q < s.len() && s[q] != '\''
        invariant
            i < q <= s@.len(),
            quote_after(s@, i as int) == quote_after(s@, q - 1),
        decreases s.len() - q,
    {
        q = q + 1;
    }
    if q >= s.len() {
        return None;
    }
    let text = input.substring_char(i + 1, q);
    Some((String::from_str(text), q + 1))
}

fn spaces1(s: &Vec<char>, i: usize) -> (r: Option<usize>)
    requires
        i <= s@.len(),
    ensures
        r is None <==> spaces1_at(s@, i as int) is None,
        r matches Some(j) ==> spaces1_at(s@, i as int) == Some(j as int) && j <= s@.len(),
{
    let j = skip_spaces_from(s, i);
    if j > i { Some(j) } else { None }
}

pub fn parse_insert(input: &str, s: &Vec<char>, i: usize) -> (r: Option<(Statement, usize)>)
    requires
        s@ == input@,
        i <= s@.len(),
    ensures
        match (r, insert_at(s@, i as int)) {
            (Some((v, e)), Some((w, f))) => v@ == w && e == f,
            (None, None) => true,
            _ => false,
        },
        r matches Some((v, e)) ==> e <= s@.len(),
{
    let kw: [char; 6] = ['i', 'n', 's', 'e', 'r', 't'];
    proof {
        reveal_strlit("insert");
        assert(kw@ =~= "insert"@);
        assert(kw@.len() == 6 || kw@.len() == 4);
    }
    let kws = kw.as_slice();
    assert(kws@ == kw@);
    assert(s@.len() == s.len());
    if !keyword_matches(s, i, kws) {
        return None;
    }
    let a = match spaces1(s, i + 6) {
        Some(a) => a,
        None => return None,
    };
    let (id, b) = match unsigned_integer(s, a) {
        Some(x) => x,
        None => return None,
    };
    let c = match spaces1(s, b) {
        Some(c) => c,
        None => return None,
    };
    let (value, d) = match quoted_string(input, s, c) {
        Some(x) => x,
        None => return None,
    };
    Some((Statement::Insert { id, value }, d))
}

pub fn parse_select(s: &Vec<char>, i: usize) -> (r: Option<(Statement, usize)>)
    requires
        i <= s@.len(),
    ensures
        match (r, select_at(s@, i as int)) {
            (Some((v, e)), Some((w, f))) => v@ == w && e == f,
            (None, None) => true,
            _ => false,
        },
        r matches Some((v, e)) ==> e <= s@.len(),
{
    let kw: [char; 6] = ['s', 'e', 'l', 'e', 'c', 't'];
    proof {
        reveal_strlit("select");
        assert(kw@ =~= "select"@);
        assert(kw@.len() == 6 || kw@.len() == 4);
    }
    let kws = kw.as_slice();
    assert(kws@ == kw@);
    assert(s@.len() == s.len());
    if !keyword_matches(s, i, kws) {
        return None;
    }
    let a = match spaces1(s, i + 6) {
        Some(a) => a,
        None => return None,
    };
    match unsigned_integer(s, a) {
        Some((id, b)) => Some((Statement::Select { id }, b)),
        None => None,
    }
}

pub fn parse_scan(s: &Vec<char>, i: usize) -> (r: Option<(Statement, usize)>)
    requires
        i <= s@.len(),
    ensures
        match (r, scan_at(s@, i as int)) {
            (Some((v, e)), Some((w, f))) => v@ == w && e == f,
            (None, None) => true,
            _ => false,
        },
        r matches Some((v, e)) ==> e <= s@.len(),
{
    let kw: [char; 4] = ['s', 'c', 'a', 'n'];
    proof {
        reveal_strlit("scan");
        assert(kw@ =~= "scan"@);
        assert(kw@.len() == 6 || kw@.len() == 4);
    }
    let kws = kw.as_slice();
    assert(kws@ == kw@);
    assert(s@.len() == s.len());
    if !keyword_matches(s, i, kws) {
        return None;
    }
    let a = match spaces1(s, i + 4) {
        Some(a) => a,
        None => return None,
    };
    let (start, b) = match unsigned_integer(s, a) {
        Some(x) => x,
        None => return None,
    };
    let p = skip_spaces_from(s, b);
    if !(p < s.len() && p + 1 < s.len() && s[p] == '.' && s[p + 1] == '.') {
        return None;
    }
    match unsigned_integer(s, p + 2) {
        Some((end, e)) => Some((Statement::Scan { start, end }, e)),
        None => None,
    }
}

/// The statement the whole input spells.
pub fn parse_statement(input: &str) -> (r: Result<Statement, QueryError>)
    ensures
        match (r, spec_parse_statement(input@)) {
            (Ok(st), Some(v)) => st@ == v,
            (Err(e), None) => e == QueryError::InvalidQuery,
            _ => false,
        },
{
    let s = collect_chars(input);
    let i = skip_spaces_from(&s, 0);
    let parsed = match parse_insert(input, &s, i) {
        Some(x) => Some(x),
        None => match parse_select(&s, i) {
            Some(x) => Some(x),
            None => parse_scan(&s, i),
        },
    };
    let (statement, e) = match parsed {
        Some(x) => x,
        None => return Err(QueryError::InvalidQuery),
    };
    let j = skip_spaces_from(&s, e);
    let k = if j < s.len() && s[j] == ';' { j + 1 } else { j };
    if k == s.len() {
        Ok(statement)
    } else {
        Err(QueryError::InvalidQuery)
    }
}

} // verus!
