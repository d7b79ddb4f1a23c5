//! The filter expression language: a small boolean grammar over processes.
//!
//! A filter is written `name(args)`: leaves `true()`, `false()`, `uid(0)`,
//! `pid(1)`, `comm(cat)`, `descendants(1)`, `env_k(KEY)`, `env_kv(KEY,VALUE)`,
//! and the connectives `and(..)`, `or(..)`, `not(..)`.  `and`/`or` take their
//! children back to back, one separator character between two siblings.
//! Arguments cannot contain parentheses and the whole expression must be
//! ASCII; parsing never panics and reports a descriptive error instead.
//!
//! `parse` returns the parsed filter and how many characters it consumed;
//! callers tolerate trailing text for forward compatibility.

use vstd::prelude::*;

use crate::digits::all_digits;
use crate::digits::atou;
use crate::digits::dec_digits;
use crate::digits::parse_i32;
use crate::digits::parse_u32;
use crate::digits::spec_parse_i32;
use crate::digits::spec_parse_u32;
use crate::digits::u64_to_string;
use crate::procinfo::ProcessInfo;
use crate::process_tree::reaches;
use crate::process_tree::ProcessTree;

verus! {

broadcast use {
    vstd::std_specs::vec::axiom_vec_index_decreases,
    vstd::std_specs::vec::axiom_vec_decreases_to_view,
    vstd::seq::axiom_seq_index_decreases,
    vstd::seq::axiom_seq_subrange_decreases,
};

/// One process as the filters see it: attributes that could not be read
/// (the process may have exited mid-scan) are `None`, and the affected
/// leaf filters then evaluate to false rather than failing.
pub struct ProcessRecord {
    pub pid: i32,
    pub uid: Option<u32>,
    pub comm: Option<String>,
    pub environ: Option<Vec<(String, String)>>,
}

/// A parsed filter: a closed predicate tree over one process.
#[derive(Debug)]
pub enum Filter {
    True,
    False,
    And(Vec<Filter>),
    Or(Vec<Filter>),
    Not(Box<Filter>),
    Uid(u32),
    Pid(i32),
    Comm(String),
    Descendants(i32),
    EnvKey(String),
    EnvKeyValue(String, String),
}

/// The mathematical shape of a filter, with text as character sequences.
pub enum FilterModel {
    True,
    False,
    And(Seq<FilterModel>),
    Or(Seq<FilterModel>),
    Not(Box<FilterModel>),
    Uid(u32),
    Pid(i32),
    Comm(Seq<char>),
    Descendants(i32),
    EnvKey(Seq<char>),
    EnvKeyValue(Seq<char>, Seq<char>),
}

pub open spec fn model_seq(cs: Seq<Filter>) -> Seq<FilterModel>
    decreases cs, 1int,
{
    if cs.len() == 0 {
        Seq::<FilterModel>::empty()
    } else {
        seq![model_of(cs[0])] + model_seq(cs.drop_first())
    }
}

/// The model of a parsed filter.
pub open spec fn model_of(f: Filter) -> FilterModel
    decreases f, 0int,
{
    match f {
        Filter::True => FilterModel::True,
        Filter::False => FilterModel::False,
        Filter::And(cs) => FilterModel::And(model_seq(cs@)),
        Filter::Or(cs) => FilterModel::Or(model_seq(cs@)),
        Filter::Not(b) => FilterModel::Not(Box::new(model_of(*b))),
        Filter::Uid(u) => FilterModel::Uid(u),
        Filter::Pid(p) => FilterModel::Pid(p),
        Filter::Comm(s) => FilterModel::Comm(s@),
        Filter::Descendants(p) => FilterModel::Descendants(p),
        Filter::EnvKey(k) => FilterModel::EnvKey(k@),
        Filter::EnvKeyValue(k, v) => FilterModel::EnvKeyValue(k@, v@),
    }
}

/// Why a filter string was rejected.
#[derive(Clone, Copy, PartialEq, Eq, Structural, Debug)]
pub enum ParseError {
    /// The input holds a non-ASCII character; slicing such text by
    /// character offsets is not supported, so it is rejected outright.
    NotAscii,
    /// No opening parenthesis.
    MissingOpen,
    /// The opening parenthesis is never closed.
    Unbalanced,
    /// The operator name is not part of the grammar.
    UnknownOperator,
    /// `uid`, `pid` or `descendants` was given a non-numeric argument.
    BadNumber,
    /// `env_kv` was given no comma-separated value.
    MissingValue,
    /// A child of `and`/`or` failed to parse.
    BadChild,
}

// ---------------------------------------------------------------------------
// Grammar, as specification functions over character sequences.
// ---------------------------------------------------------------------------

/// The first position at or after `k` holding character `c`.
pub open spec fn find_char_from(s: Seq<char>, k: int, c: char) -> Option<int>
    decreases s.len() - k,
{
    if k < 0 || k >= s.len() {
        None
    } else if s[k] == c {
        Some(k)
    } else {
        find_char_from(s, k + 1, c)
    }
}

/// The position where the parenthesis depth counter, running from `k` with
/// current depth `depth`, first returns to zero.
pub open spec fn find_close_from(s: Seq<char>, k: int, depth: int) -> Option<int>
    decreases s.len() - k,
{
    if k < 0 || k >= s.len() {
        None
    } else {
        let d = if s[k] == '(' {
            depth + 1
        } else if s[k] == ')' {
            depth - 1
        } else {
            depth
        };
        if d == 0 {
            Some(k)
        } else {
            find_close_from(s, k + 1, d)
        }
    }
}

pub open spec fn is_ws(c: char) -> bool {
    9 <= c as int <= 13 || c as int == 32
}

/// First non-whitespace position at or after `k`.
pub open spec fn ws_start(s: Seq<char>, k: int) -> int
    decreases s.len() - k,
{
    if k < 0 || k >= s.len() {
        k
    } else if is_ws(s[k]) {
        ws_start(s, k + 1)
    } else {
        k
    }
}

/// Position after the last non-whitespace character strictly before `k`.
pub open spec fn ws_end(s: Seq<char>, k: int) -> int
    decreases k,
{
    if k <= 0 || k > s.len() {
        0
    } else if is_ws(s[k - 1]) {
        ws_end(s, k - 1)
    } else {
        k
    }
}

/// What `str::trim` leaves of `s`.
pub open spec fn spec_trim(s: Seq<char>) -> Seq<char> {
    let a = ws_start(s, 0);
    let b = ws_end(s, s.len() as int);
    if a <= b {
        s.subrange(a, b)
    } else {
        Seq::<char>::empty()
    }
}

pub open spec fn op_and() -> Seq<char> {
    seq!['a', 'n', 'd']
}

pub open spec fn op_or() -> Seq<char> {
    seq!['o', 'r']
}

pub open spec fn op_not() -> Seq<char> {
    seq!['n', 'o', 't']
}

pub open spec fn op_descendants() -> Seq<char> {
    seq!['d', 'e', 's', 'c', 'e', 'n', 'd', 'a', 'n', 't', 's']
}

pub open spec fn op_comm() -> Seq<char> {
    seq!['c', 'o', 'm', 'm']
}

pub open spec fn op_pid() -> Seq<char> {
    seq!['p', 'i', 'd']
}

pub open spec fn op_uid() -> Seq<char> {
    seq!['u', 'i', 'd']
}

pub open spec fn op_env_kv() -> Seq<char> {
    seq!['e', 'n', 'v', '_', 'k', 'v']
}

pub open spec fn op_env_k() -> Seq<char> {
    seq!['e', 'n', 'v', '_', 'k']
}

pub open spec fn op_true() -> Seq<char> {
    seq!['t', 'r', 'u', 'e']
}

pub open spec fn op_false() -> Seq<char> {
    seq!['f', 'a', 'l', 's', 'e']
}

/// The `env_kv` body: the text before the first comma is the key, the text
/// between the first and second comma (or the end) is the value, both
/// trimmed; with no comma there is no value.
pub open spec fn spec_parse_env_kv(inner: Seq<char>) -> Result<FilterModel, ParseError> {
    match find_char_from(inner, 0, ',') {
        None => Err(ParseError::MissingValue),
        Some(c1) => {
            let key = spec_trim(inner.subrange(0, c1));
            let rest = inner.subrange(c1 + 1, inner.len() as int);
            let value_raw = match find_char_from(rest, 0, ',') {
                None => rest,
                Some(c2) => rest.subrange(0, c2),
            };
            Ok(FilterModel::EnvKeyValue(key, spec_trim(value_raw)))
        },
    }
}

/// One step of the grammar: operator name up to the first `(`, body up to
/// the matching `)`, then the leaf or connective rule for that name.
/// Returns the filter and the number of characters consumed.
pub open spec fn spec_parse(s: Seq<char>) -> Result<(FilterModel, nat), ParseError>
    decreases s.len(), 0int,
    via spec_parse_decreases
{
    match find_char_from(s, 0, '(') {
        None => Err(ParseError::MissingOpen),
        Some(opening) => match find_close_from(s, opening, 0) {
            None => Err(ParseError::Unbalanced),
            Some(closing) => {
                let name = s.subrange(0, opening);
                let inner = s.subrange(opening + 1, closing);
                let ate = (closing + 1) as nat;
                if name == op_and() || name == op_or() {
                    match spec_parse_children(inner, 0) {
                        Err(e) => Err(e),
                        Ok(children) => if name == op_and() {
                            Ok((FilterModel::And(children), ate))
                        } else {
                            Ok((FilterModel::Or(children), ate))
                        },
                    }
                } else if name == op_not() {
                    match spec_parse(inner) {
                        Err(e) => Err(e),
                        Ok((child, _inner_ate)) => Ok(
                            (FilterModel::Not(Box::new(child)), ate),
                        ),
                    }
                } else if name == op_descendants() {
                    match spec_parse_i32(inner) {
                        None => Err(ParseError::BadNumber),
                        Some(p) => Ok((FilterModel::Descendants(p), ate)),
                    }
                } else if name == op_comm() {
                    Ok((FilterModel::Comm(inner), ate))
                } else if name == op_pid() {
                    match spec_parse_i32(inner) {
                        None => Err(ParseError::BadNumber),
                        Some(p) => Ok((FilterModel::Pid(p), ate)),
                    }
                } else if name == op_uid() {
                    match spec_parse_u32(inner) {
                        None => Err(ParseError::BadNumber),
                        Some(u) => Ok((FilterModel::Uid(u), ate)),
                    }
                } else if name == op_env_kv() {
                    match spec_parse_env_kv(inner) {
                        Err(e) => Err(e),
                        Ok(f) => Ok((f, ate)),
                    }
                } else if name == op_env_k() {
                    Ok((FilterModel::EnvKey(inner), ate))
                } else if name == op_true() {
                    Ok((FilterModel::True, ate))
                } else if name == op_false() {
                    Ok((FilterModel::False, ate))
                } else {
                    Err(ParseError::UnknownOperator)
                }
            },
        },
    }
}

/// The children of an `and`/`or` body, starting at `from`: parse one child,
/// skip one separator character, and stop once the cursor passes the end.
pub open spec fn spec_parse_children(body: Seq<char>, from: nat) -> Result<
    Seq<FilterModel>,
    ParseError,
>
    decreases body.len() - from, 1int,
{
    if from > body.len() {
        Err(ParseError::BadChild)  // unreachable from the call sites below
    } else {
        match spec_parse(body.subrange(from as int, body.len() as int)) {
            Err(_) => Err(ParseError::BadChild),
            Ok((f, ate)) => {
                let next = from + ate + 1;
                if next > body.len() {
                    Ok(seq![f])
                } else {
                    match spec_parse_children(body, next) {
                        Err(e) => Err(e),
                        Ok(rest) => Ok(seq![f] + rest),
                    }
                }
            },
        }
    }
}

#[via_fn]
proof fn spec_parse_decreases(s: Seq<char>) {
    lemma_find_char_in_range(s, 0, '(');
    match find_char_from(s, 0, '(') {
        Some(opening) => {
            lemma_find_close_in_range(s, opening, 0);
            if 0 <= opening < s.len() && s[opening] == '(' {
                assert(find_close_from(s, opening, 0) == find_close_from(s, opening + 1, 1));
                lemma_find_close_in_range(s, opening + 1, 1);
            }
        },
        None => (),
    }
}

/// A successful parse consumes between one character and the whole input.
pub proof fn lemma_spec_parse_consumed(s: Seq<char>)
    ensures
        spec_parse(s) matches Ok((f, ate)) ==> 1 <= ate <= s.len(),
{
    if spec_parse(s) is Ok {
        let opening = find_char_from(s, 0, '(').unwrap();
        lemma_find_char_in_range(s, 0, '(');
        lemma_find_close_in_range(s, opening, 0);
    }
}

pub proof fn lemma_find_char_in_range(s: Seq<char>, k: int, c: char)
    requires
        0 <= k,
    ensures
        find_char_from(s, k, c) matches Some(i) ==> k <= i < s.len() && s[i] == c,
    decreases s.len() - k,
{
    if k < s.len() && s[k] != c {
        lemma_find_char_in_range(s, k + 1, c);
    }
}

pub proof fn lemma_find_close_in_range(s: Seq<char>, k: int, depth: int)
    requires
        0 <= k,
    ensures
        find_close_from(s, k, depth) matches Some(i) ==> k <= i < s.len(),
    decreases s.len() - k,
{
    if k < s.len() {
        let d = if s[k] == '(' {
            depth + 1
        } else if s[k] == ')' {
            depth - 1
        } else {
            depth
        };
        if d != 0 {
            lemma_find_close_in_range(s, k + 1, d);
        }
    }
}

// ---------------------------------------------------------------------------
// Executable parser.
// ---------------------------------------------------------------------------

/// Character-for-character string equality.
fn str_eq(a: &str, b: &str) -> (r: bool)
    ensures
        r == (a@ == b@),
{
    let na = a.unicode_len();
    let nb = b.unicode_len();
    if na != nb {
        proof {
            assert(a@ != b@);
        }
        return false;
    }
    for i in 0..na
        invariant
            na == a@.len(),
            na == b@.len(),
            forall|j: int| 0 <= j < i ==> a@[j] == b@[j],
    {
        if a.get_char(i) != b.get_char(i) {
            return false;
        }
    }
    proof {
        assert(a@ =~= b@);
    }
    true
}

/// First position of `c` in `s` at or after `from`.
fn find_char(s: &str, from: usize, c: char) -> (r: Option<usize>)
    requires
        from <= s@.len(),
    ensures
        match r {
            Some(i) => find_char_from(s@, from as int, c) == Some(i as int) && from <= i
                < s@.len(),
            None => find_char_from(s@, from as int, c) is None,
        },
{
    let n = s.unicode_len();
    let mut k: usize = from;
    while k < n
        invariant
            from <= k <= n,
            n == s@.len(),
            find_char_from(s@, from as int, c) == find_char_from(s@, k as int, c),
        decreases n - k,
    {
        if s.get_char(k) == c {
            return Some(k);
        }
        k += 1;
    }
    None
}

/// The matching closing parenthesis for the `(` at `opening`.
fn find_match_par(s: &str, opening: usize) -> (r: Option<usize>)
    requires
        opening < s@.len(),
        s@[opening as int] == '(',
    ensures
        match r {
            Some(i) => find_close_from(s@, opening as int, 0) == Some(i as int) && opening <= i
                < s@.len(),
            None => find_close_from(s@, opening as int, 0) is None,
        },
{
    let n = s.unicode_len();
    let mut k: usize = opening;
    let mut depth: u64 = 0;
    while k < n
        invariant
            opening <= k <= n,
            n == s@.len(),
            s@[opening as int] == '(',
            k == opening ==> depth == 0,
            k > opening ==> 1 <= depth,
            depth <= k - opening,
            find_close_from(s@, opening as int, 0) == find_close_from(
                s@,
                k as int,
                depth as int,
            ),
        decreases n - k,
    {
        let c = s.get_char(k);
        if c == '(' {
            depth = depth + 1;
        } else if c == ')' {
            depth = depth - 1;
        }
        if depth == 0 {
            return Some(k);
        }
        k += 1;
    }
    None
}

fn is_ws_char(c: char) -> (r: bool)
    ensures
        r == is_ws(c),
{
    let cv = c as u32;
    (9 <= cv && cv <= 13) || cv == 32
}

/// `str::trim` for ASCII text.
fn trim_ascii<'a>(s: &'a str) -> (r: &'a str)
    requires
        s.is_ascii(),
    ensures
        r@ == spec_trim(s@),
        r.is_ascii(),
{
    let n = s.unicode_len();
    let mut a: usize = 0;
    while a < n && is_ws_char(s.get_char(a))
        invariant
            0 <= a <= n,
            n == s@.len(),
            ws_start(s@, 0) == ws_start(s@, a as int),
        decreases n - a,
    {
        a += 1;
    }
    let mut b: usize = n;
    while b > 0 && is_ws_char(s.get_char(b - 1))
        invariant
            0 <= b <= n,
            n == s@.len(),
            ws_end(s@, n as int) == ws_end(s@, b as int),
        decreases b,
    {
        b -= 1;
    }
    if a <= b {
        s.substring_ascii(a, b)
    } else {
        let r = "";
        proof {
            reveal_strlit("");
            assert(r@ =~= spec_trim(s@));
        }
        r
    }
}

/// Parses one filter expression from the front of `input`.
///
/// On success, returns the filter and the count of characters consumed;
/// trailing text is left for the caller to inspect.  Errors report exactly
/// why the input was rejected; non-ASCII input is rejected as a whole.
pub fn parse(input: &str) -> (r: Result<(Filter, usize), ParseError>)
    ensures
        match r {
            Ok((f, ate)) => vstd::string::is_ascii(input) && spec_parse(input@)
                == Ok::<(FilterModel, nat), ParseError>((model_of(f), ate as nat)),
            Err(e) => if vstd::string::is_ascii(input) {
                spec_parse(input@) == Err::<(FilterModel, nat), ParseError>(e)
            } else {
                e == ParseError::NotAscii
            },
        },
{
    if !input.is_ascii() {
        return Err(ParseError::NotAscii);
    }
    parse_ascii(input)
}

fn parse_ascii(input: &str) -> (r: Result<(Filter, usize), ParseError>)
    requires
        input.is_ascii(),
    ensures
        match r {
            Ok((f, ate)) => spec_parse(input@) == Ok::<(FilterModel, nat), ParseError>(
                (model_of(f), ate as nat),
            ),
            Err(e) => spec_parse(input@) == Err::<(FilterModel, nat), ParseError>(e),
        },
    decreases input@.len(),
{
    let n = input.unicode_len();
    let opening = match find_char(input, 0, '(') {
        Some(i) => i,
        None => {
            return Err(ParseError::MissingOpen);
        },
    };
    proof {
        lemma_find_char_in_range(input@, 0, '(');
    }
    let closing = match find_match_par(input, opening) {
        Some(i) => i,
        None => {
            return Err(ParseError::Unbalanced);
        },
    };
    proof {
        assert(find_close_from(input@, opening as int, 0) == find_close_from(
            input@,
            opening as int + 1,
            1,
        ));
        lemma_find_close_in_range(input@, opening as int + 1, 1);
    }
    let name = input.substring_ascii(0, opening);
    let inner = input.substring_ascii(opening + 1, closing);
    let ate = closing + 1;
    if str_eq(name, "and") || str_eq(name, "or") {
        proof {
            reveal_strlit("and");
            reveal_strlit("or");
            assert(op_and() =~= "and"@);
            assert(op_or() =~= "or"@);
        }
        let is_and = str_eq(name, "and");
        let mut children: Vec<Filter> = Vec::new();
        let body_len = inner.unicode_len();
        let mut from: usize = 0;
        loop
            invariant_except_break
                input.is_ascii(),
                inner.is_ascii(),
                from <= body_len,
                body_len == inner@.len(),
                inner@.len() < input@.len(),
                inner@.len() < usize::MAX,
                inner@ == input@.subrange(opening as int + 1, closing as int),
                find_char_from(input@, 0, '(') == Some(opening as int),
                find_close_from(input@, opening as int, 0) == Some(closing as int),
                opening < closing < input@.len(),
                ate == closing + 1,
                input@.subrange(0, opening as int) == op_and() || input@.subrange(
                    0,
                    opening as int,
                ) == op_or(),
                spec_parse_children(inner@, from as nat) matches Ok(rest) ==> (
                spec_parse_children(inner@, 0) == Ok::<Seq<FilterModel>, ParseError>(
                    model_seq(children@) + rest,
                )),
                spec_parse_children(inner@, from as nat) matches Err(e) ==> (
                spec_parse_children(inner@, 0) == Err::<Seq<FilterModel>, ParseError>(e)),
            ensures
                spec_parse_children(inner@, 0) == Ok::<Seq<FilterModel>, ParseError>(
                    model_seq(children@),
                ),
            decreases body_len - from,
        {
            let sub = inner.substring_ascii(from, body_len);
            let child = match parse_ascii(sub) {
                Ok((f, a)) => (f, a),
                Err(_) => {
                    proof {
                        assert(spec_parse_children(inner@, from as nat) == Err::<
                            Seq<FilterModel>,
                            ParseError,
                        >(ParseError::BadChild));
                        assert(spec_parse(input@) == Err::<(FilterModel, nat), ParseError>(
                            ParseError::BadChild,
                        ));
                    }
                    return Err(ParseError::BadChild);
                },
            };
            let (f, child_ate) = child;
            proof {
                lemma_spec_parse_consumed(sub@);
                lemma_model_seq_push(children@, f);
            }
            let ghost pre_children = children@;
            children.push(f);
            let next = from + child_ate + 1;
            proof {
                assert(spec_parse_children(inner@, from as nat) matches Ok(rest) ==> rest
                    == seq![model_of(f)] + (if next <= body_len {
                    spec_parse_children(inner@, next as nat).unwrap()
                } else {
                    Seq::<FilterModel>::empty()
                }) && (next <= body_len ==> spec_parse_children(inner@, next as nat) is Ok));
            }
            if next > body_len {
                proof {
                    assert(spec_parse_children(inner@, from as nat) == Ok::<
                        Seq<FilterModel>,
                        ParseError,
                    >(seq![model_of(f)]));
                    assert(model_seq(children@) =~= model_seq(pre_children) + seq![
                        model_of(f),
                    ]);
                }
                break ;
            }
            proof {
                assert(model_seq(children@) =~= model_seq(pre_children) + seq![model_of(f)]);
                assert forall|rest2: Seq<FilterModel>|
                    spec_parse_children(inner@, next as nat) == Ok::<
                        Seq<FilterModel>,
                        ParseError,
                    >(rest2) implies (spec_parse_children(inner@, 0) == Ok::<
                    Seq<FilterModel>,
                    ParseError,
                >(model_seq(children@) + rest2)) by {
                    assert(spec_parse_children(inner@, from as nat) == Ok::<
                        Seq<FilterModel>,
                        ParseError,
                    >(seq![model_of(f)] + rest2));
                    assert(model_seq(pre_children) + (seq![model_of(f)] + rest2) =~= model_seq(
                        children@,
                    ) + rest2);
                }
            }
            from = next;
        }
        if is_and {
            proof {
                assert(spec_parse(input@) == Ok::<(FilterModel, nat), ParseError>(
                    (FilterModel::And(model_seq(children@)), ate as nat),
                ));
            }
            Ok((Filter::And(children), ate))
        } else {
            proof {
                assert(op_and() != op_or());
                assert(spec_parse(input@) == Ok::<(FilterModel, nat), ParseError>(
                    (FilterModel::Or(model_seq(children@)), ate as nat),
                ));
            }
            Ok((Filter::Or(children), ate))
        }
    } else if str_eq(name, "not") {
        proof {
            reveal_strlit("and");
            reveal_strlit("or");
            reveal_strlit("not");
            assert(op_not() =~= "not"@);
        }
        match parse_ascii(inner) {
            Ok((child, _inner_ate)) => Ok((Filter::Not(Box::new(child)), ate)),
            Err(e) => Err(e),
        }
    } else if str_eq(name, "descendants") {
        proof {
            reveal_strlit("descendants");
            assert(op_descendants() =~= "descendants"@);
        }
        match parse_i32(inner) {
            Some(p) => Ok((Filter::Descendants(p), ate)),
            None => Err(ParseError::BadNumber),
        }
    } else if str_eq(name, "comm") {
        proof {
            reveal_strlit("comm");
            assert(op_comm() =~= "comm"@);
        }
        Ok((Filter::Comm(inner.to_owned()), ate))
    } else if str_eq(name, "pid") {
        proof {
            reveal_strlit("pid");
            assert(op_pid() =~= "pid"@);
        }
        match parse_i32(inner) {
            Some(p) => Ok((Filter::Pid(p), ate)),
            None => Err(ParseError::BadNumber),
        }
    } else if str_eq(name, "uid") {
        proof {
            reveal_strlit("uid");
            assert(op_uid() =~= "uid"@);
        }
        match parse_u32(inner) {
            Some(u) => Ok((Filter::Uid(u), ate)),
            None => Err(ParseError::BadNumber),
        }
    } else if str_eq(name, "env_kv") {
        proof {
            reveal_strlit("env_kv");
            assert(op_env_kv() =~= "env_kv"@);
        }
        match find_char(inner, 0, ',') {
            None => Err(ParseError::MissingValue),
            Some(c1) => {
                let key = trim_ascii(inner.substring_ascii(0, c1));
                let body_len = inner.unicode_len();
                let rest = inner.substring_ascii(c1 + 1, body_len);
                let value_raw = match find_char(rest, 0, ',') {
                    None => rest,
                    Some(c2) => rest.substring_ascii(0, c2),
                };
                let value = trim_ascii(value_raw);
                Ok((Filter::EnvKeyValue(key.to_owned(), value.to_owned()), ate))
            },
        }
    } else if str_eq(name, "env_k") {
        proof {
            reveal_strlit("env_k");
            assert(op_env_k() =~= "env_k"@);
        }
        Ok((Filter::EnvKey(inner.to_owned()), ate))
    } else if str_eq(name, "true") {
        proof {
            reveal_strlit("true");
            assert(op_true() =~= "true"@);
        }
        Ok((Filter::True, ate))
    } else if str_eq(name, "false") {
        proof {
            reveal_strlit("false");
            assert(op_false() =~= "false"@);
        }
        Ok((Filter::False, ate))
    } else {
        proof {
            reveal_strlit("and");
            reveal_strlit("or");
            reveal_strlit("not");
            reveal_strlit("descendants");
            reveal_strlit("comm");
            reveal_strlit("pid");
            reveal_strlit("uid");
            reveal_strlit("env_kv");
            reveal_strlit("env_k");
            reveal_strlit("true");
            reveal_strlit("false");
            assert(op_and() =~= "and"@);
            assert(op_or() =~= "or"@);
            assert(op_not() =~= "not"@);
            assert(op_descendants() =~= "descendants"@);
            assert(op_comm() =~= "comm"@);
            assert(op_pid() =~= "pid"@);
            assert(op_uid() =~= "uid"@);
            assert(op_env_kv() =~= "env_kv"@);
            assert(op_env_k() =~= "env_k"@);
            assert(op_true() =~= "true"@);
            assert(op_false() =~= "false"@);
            assert(name@ != op_and() && name@ != op_or() && name@ != op_not() && name@
                != op_descendants() && name@ != op_comm() && name@ != op_pid() && name@
                != op_uid() && name@ != op_env_kv() && name@ != op_env_k() && name@ != op_true()
                && name@ != op_false());
        }
        Err(ParseError::UnknownOperator)
    }
}

proof fn lemma_model_seq_push(cs: Seq<Filter>, f: Filter)
    ensures
        model_seq(cs.push(f)) == model_seq(cs) + seq![model_of(f)],
    decreases cs.len(),
{
    if cs.len() == 0 {
        assert(cs.push(f)[0] == f);
        assert(cs.push(f).drop_first() =~= Seq::<Filter>::empty());
        assert(model_seq(cs.push(f).drop_first()) == model_seq(Seq::<Filter>::empty()));
        assert(model_seq(Seq::<Filter>::empty()) =~= Seq::<FilterModel>::empty());
        assert(model_seq(cs.push(f)) =~= model_seq(cs) + seq![model_of(f)]);
    } else {
        assert(cs.push(f).drop_first() =~= cs.drop_first().push(f));
        lemma_model_seq_push(cs.drop_first(), f);
        assert(cs.push(f)[0] == cs[0]);
        assert(model_seq(cs.push(f)) == seq![model_of(cs[0])] + model_seq(
            cs.drop_first().push(f),
        ));
        assert(model_seq(cs) == seq![model_of(cs[0])] + model_seq(cs.drop_first()));
        assert(model_seq(cs.push(f)) =~= model_seq(cs) + seq![model_of(f)]);
    }
}

// ---------------------------------------------------------------------------
// Evaluation.
// ---------------------------------------------------------------------------

/// The value stored under `key`, walking the environment front to back
/// (keys are unique in a process environment, so at most one entry matches).
pub open spec fn env_lookup(env: Seq<(String, String)>, key: Seq<char>) -> Option<Seq<char>>
    decreases env.len(),
{
    if env.len() == 0 {
        None
    } else if env[0].0@ == key {
        Some(env[0].1@)
    } else {
        env_lookup(env.drop_first(), key)
    }
}

/// What a filter means on one process: the boolean the predicate tree
/// denotes.  Unreadable attributes make the affected leaves false, and
/// `descendants(d)` matches `d` itself and everything reachable below it.
pub open spec fn spec_eval(m: FilterModel, p: ProcessRecord, edges: Seq<(i32, i32)>) -> bool
    decreases m, 0int,
{
    match m {
        FilterModel::True => true,
        FilterModel::False => false,
        FilterModel::And(cs) => spec_eval_all(cs, p, edges),
        FilterModel::Or(cs) => spec_eval_any(cs, p, edges),
        FilterModel::Not(b) => !spec_eval(*b, p, edges),
        FilterModel::Uid(u) => p.uid == Some(u),
        FilterModel::Pid(q) => p.pid == q,
        FilterModel::Comm(c) => match p.comm {
            Some(s) => s@ == c,
            None => false,
        },
        FilterModel::Descendants(d) => p.pid == d || reaches(edges, d, p.pid),
        FilterModel::EnvKey(k) => match p.environ {
            Some(env) => env_lookup(env@, k) is Some,
            None => false,
        },
        FilterModel::EnvKeyValue(k, v) => match p.environ {
            Some(env) => env_lookup(env@, k) == Some(v),
            None => false,
        },
    }
}

/// Every filter in the sequence holds.
pub open spec fn spec_eval_all(cs: Seq<FilterModel>, p: ProcessRecord, edges: Seq<(i32, i32)>) -> bool
    decreases cs, 1int,
{
    if cs.len() == 0 {
        true
    } else {
        spec_eval(cs[0], p, edges) && spec_eval_all(cs.drop_first(), p, edges)
    }
}

/// At least one filter in the sequence holds.
pub open spec fn spec_eval_any(cs: Seq<FilterModel>, p: ProcessRecord, edges: Seq<(i32, i32)>) -> bool
    decreases cs, 1int,
{
    if cs.len() == 0 {
        false
    } else {
        spec_eval(cs[0], p, edges) || spec_eval_any(cs.drop_first(), p, edges)
    }
}

/// The i-th model is the model of the i-th filter.
pub proof fn lemma_model_seq_index(cs: Seq<Filter>)
    ensures
        model_seq(cs).len() == cs.len(),
        forall|i: int| 0 <= i < cs.len() ==> model_seq(cs)[i] == model_of(#[trigger] cs[i]),
    decreases cs.len(),
{
    if cs.len() > 0 {
        lemma_model_seq_index(cs.drop_first());
        assert forall|i: int| 0 <= i < cs.len() implies model_seq(cs)[i] == model_of(
            #[trigger] cs[i],
        ) by {
            if i > 0 {
                assert(cs.drop_first()[i - 1] == cs[i]);
                assert(model_seq(cs)[i] == model_seq(cs.drop_first())[i - 1]);
            }
        }
    }
}

pub(crate) fn env_get<'a>(env: &'a Vec<(String, String)>, key: &String) -> (r: Option<&'a String>)
    ensures
        match r {
            Some(v) => env_lookup(env@, key@) == Some(v@),
            None => env_lookup(env@, key@) is None,
        },
{
    let n = env.len();
    proof {
        assert(env@.skip(0) =~= env@);
    }
    for i in 0..n
        invariant
            n == env@.len(),
            env_lookup(env@, key@) == env_lookup(env@.skip(i as int), key@),
    {
        proof {
            assert(env@.skip(i as int)[0] == env@[i as int]);
            assert(env@.skip(i as int).drop_first() =~= env@.skip(i + 1));
        }
        if env[i].0 == *key {
            return Some(&env[i].1);
        }
    }
    proof {
        assert(env@.skip(n as int) =~= Seq::<(String, String)>::empty());
    }
    None
}

/// One collected process, seen the way the filters see a process: every
/// attribute was read successfully except possibly the command name.
pub open spec fn record_of_info(info: ProcessInfo) -> ProcessRecord {
    ProcessRecord {
        pid: info.pid,
        uid: Some(info.uid),
        comm: info.comm,
        environ: Some(info.environ),
    }
}

fn eval_parts(
    f: &Filter,
    pid: i32,
    uid: Option<u32>,
    comm: Option<&String>,
    environ: Option<&Vec<(String, String)>>,
    tree: &ProcessTree,
    Ghost(rec): Ghost<ProcessRecord>,
) -> (r: bool)
    requires
        rec.pid == pid,
        rec.uid == uid,
        rec.comm == (match comm {
            Some(c) => Some(*c),
            None => None::<String>,
        }),
        rec.environ == (match environ {
            Some(e) => Some(*e),
            None => None::<Vec<(String, String)>>,
        }),
    ensures
        r == spec_eval(model_of(*f), rec, tree@),
    decreases *f, 0int, 0int,
{
    match f {
        Filter::True => true,
        Filter::False => false,
        Filter::And(cs) => {
            let r = eval_parts_all(cs, 0, pid, uid, comm, environ, tree, Ghost(rec));
            proof {
                assert(model_seq(cs@).skip(0) =~= model_seq(cs@));
                assert(model_of(*f) == FilterModel::And(model_seq(cs@))) by {
                    reveal_with_fuel(model_of, 2);
                }
            }
            r
        },
        Filter::Or(cs) => {
            let r = eval_parts_any(cs, 0, pid, uid, comm, environ, tree, Ghost(rec));
            proof {
                assert(model_seq(cs@).skip(0) =~= model_seq(cs@));
                assert(model_of(*f) == FilterModel::Or(model_seq(cs@))) by {
                    reveal_with_fuel(model_of, 2);
                }
            }
            r
        },
        Filter::Not(b) => !eval_parts(b, pid, uid, comm, environ, tree, Ghost(rec)),
        Filter::Uid(u) => match uid {
            Some(x) => x == *u,
            None => false,
        },
        Filter::Pid(q) => pid == *q,
        Filter::Comm(c) => match comm {
            Some(s) => *s == *c,
            None => false,
        },
        Filter::Descendants(d) => {
            let ds = tree.descendants(*d, true);
            ds.contains(&pid)
        },
        Filter::EnvKey(k) => match environ {
            Some(env) => env_get(env, k).is_some(),
            None => false,
        },
        Filter::EnvKeyValue(k, v) => match environ {
            Some(env) => match env_get(env, k) {
                Some(val) => *val == *v,
                None => false,
            },
            None => false,
        },
    }
}

fn eval_parts_all(
    cs: &Vec<Filter>,
    from: usize,
    pid: i32,
    uid: Option<u32>,
    comm: Option<&String>,
    environ: Option<&Vec<(String, String)>>,
    tree: &ProcessTree,
    Ghost(rec): Ghost<ProcessRecord>,
) -> (r: bool)
    requires
        from <= cs@.len(),
        rec.pid == pid,
        rec.uid == uid,
        rec.comm == (match comm {
            Some(c) => Some(*c),
            None => None::<String>,
        }),
        rec.environ == (match environ {
            Some(e) => Some(*e),
            None => None::<Vec<(String, String)>>,
        }),
    ensures
        r == spec_eval_all(model_seq(cs@).skip(from as int), rec, tree@),
    decreases *cs, 1int, cs@.len() - from,
{
    proof {
        lemma_model_seq_index(cs@);
    }
    if from == cs.len() {
        proof {
            assert(model_seq(cs@).skip(from as int) =~= Seq::<FilterModel>::empty());
        }
        true
    } else {
        proof {
            assert(model_seq(cs@).skip(from as int)[0] == model_of(cs@[from as int]));
            assert(model_seq(cs@).skip(from as int).drop_first() =~= model_seq(cs@).skip(
                from + 1,
            ));
        }
        if !eval_parts(&cs[from], pid, uid, comm, environ, tree, Ghost(rec)) {
            false
        } else {
            eval_parts_all(cs, from + 1, pid, uid, comm, environ, tree, Ghost(rec))
        }
    }
}

fn eval_parts_any(
    cs: &Vec<Filter>,
    from: usize,
    pid: i32,
    uid: Option<u32>,
    comm: Option<&String>,
    environ: Option<&Vec<(String, String)>>,
    tree: &ProcessTree,
    Ghost(rec): Ghost<ProcessRecord>,
) -> (r: bool)
    requires
        from <= cs@.len(),
        rec.pid == pid,
        rec.uid == uid,
        rec.comm == (match comm {
            Some(c) => Some(*c),
            None => None::<String>,
        }),
        rec.environ == (match environ {
            Some(e) => Some(*e),
            None => None::<Vec<(String, String)>>,
        }),
    ensures
        r == spec_eval_any(model_seq(cs@).skip(from as int), rec, tree@),
    decreases *cs, 1int, cs@.len() - from,
{
    proof {
        lemma_model_seq_index(cs@);
    }
    if from == cs.len() {
        proof {
            assert(model_seq(cs@).skip(from as int) =~= Seq::<FilterModel>::empty());
        }
        false
    } else {
        proof {
            assert(model_seq(cs@).skip(from as int)[0] == model_of(cs@[from as int]));
            assert(model_seq(cs@).skip(from as int).drop_first() =~= model_seq(cs@).skip(
                from + 1,
            ));
        }
        if eval_parts(&cs[from], pid, uid, comm, environ, tree, Ghost(rec)) {
            true
        } else {
            eval_parts_any(cs, from + 1, pid, uid, comm, environ, tree, Ghost(rec))
        }
    }
}

impl Filter {
    /// Evaluates this filter against one process, with the process tree
    /// answering the `descendants` leaves.
    pub fn eval(&self, p: &ProcessRecord, tree: &ProcessTree) -> (r: bool)
        ensures
            r == spec_eval(model_of(*self), *p, tree@),
    {
        eval_parts(
            self,
            p.pid,
            p.uid,
            p.comm.as_ref(),
            p.environ.as_ref(),
            tree,
            Ghost(*p),
        )
    }

    /// Evaluates this filter against one collected process.
    pub fn eval_info(&self, info: &ProcessInfo, tree: &ProcessTree) -> (r: bool)
        ensures
            r == spec_eval(model_of(*self), record_of_info(*info), tree@),
    {
        eval_parts(
            self,
            info.pid,
            Some(info.uid),
            info.comm.as_ref(),
            Some(&info.environ),
            tree,
            Ghost(record_of_info(*info)),
        )
    }
}

// ---------------------------------------------------------------------------
// The string form of a leaf filter, and its round trip through the parser.
// ---------------------------------------------------------------------------

/// `s` never holds character `c`.
pub open spec fn free_of(s: Seq<char>, c: char) -> bool {
    forall|i: int| 0 <= i < s.len() ==> #[trigger] s[i] != c
}

/// A signed decimal in the form the grammar's number leaves take.
pub open spec fn render_int(p: int) -> Seq<char> {
    if p < 0 {
        seq!['-'] + dec_digits((-p) as nat)
    } else {
        dec_digits(p as nat)
    }
}

/// The string form of a leaf filter: its operator name around its
/// argument text.  Connectives have no leaf form.
pub open spec fn spec_render_leaf(m: FilterModel) -> Seq<char> {
    match m {
        FilterModel::True => op_true() + seq!['('] + Seq::<char>::empty() + seq![')'],
        FilterModel::False => op_false() + seq!['('] + Seq::<char>::empty() + seq![')'],
        FilterModel::Uid(u) => op_uid() + seq!['('] + dec_digits(u as nat) + seq![')'],
        FilterModel::Pid(p) => op_pid() + seq!['('] + render_int(p as int) + seq![')'],
        FilterModel::Descendants(p) => op_descendants() + seq!['('] + render_int(p as int)
            + seq![')'],
        FilterModel::Comm(c) => op_comm() + seq!['('] + c + seq![')'],
        FilterModel::EnvKey(k) => op_env_k() + seq!['('] + k + seq![')'],
        FilterModel::EnvKeyValue(k, v) => op_env_kv() + seq!['('] + (k + seq![','] + v)
            + seq![')'],
        FilterModel::And(_) => Seq::<char>::empty(),
        FilterModel::Or(_) => Seq::<char>::empty(),
        FilterModel::Not(_) => Seq::<char>::empty(),
    }
}

/// The leaves whose string form parses back: the grammar cannot escape,
/// so text arguments must carry no parenthesis; an `env_kv` key or value
/// must carry no comma and no edge whitespace (the parser trims both).
pub open spec fn leaf_renderable(m: FilterModel) -> bool {
    match m {
        FilterModel::True => true,
        FilterModel::False => true,
        FilterModel::Uid(_) => true,
        FilterModel::Pid(_) => true,
        FilterModel::Descendants(_) => true,
        FilterModel::Comm(c) => free_of(c, '(') && free_of(c, ')'),
        FilterModel::EnvKey(k) => free_of(k, '(') && free_of(k, ')'),
        FilterModel::EnvKeyValue(k, v) => free_of(k, '(') && free_of(k, ')') && free_of(k, ',')
            && free_of(v, '(') && free_of(v, ')') && free_of(v, ',') && spec_trim(k) == k
            && spec_trim(v) == v,
        FilterModel::And(_) => false,
        FilterModel::Or(_) => false,
        FilterModel::Not(_) => false,
    }
}

proof fn lemma_find_char_at(s: Seq<char>, k: int, m: int, c: char)
    requires
        0 <= k <= m <= s.len(),
        forall|j: int| k <= j < m ==> s[j] != c,
    ensures
        m < s.len() && s[m] == c ==> find_char_from(s, k, c) == Some(m),
        m == s.len() ==> find_char_from(s, k, c) is None,
    decreases m - k,
{
    if k < m {
        lemma_find_char_at(s, k + 1, m, c);
    }
}

proof fn lemma_find_close_flat(s: Seq<char>, k: int, m: int)
    requires
        0 <= k <= m < s.len(),
        forall|j: int| k <= j < m ==> s[j] != '(' && s[j] != ')',
        s[m] == ')',
    ensures
        find_close_from(s, k, 1) == Some(m),
    decreases m - k,
{
    if k < m {
        lemma_find_close_flat(s, k + 1, m);
    }
}

/// Decomposing `name(arg)`: the first opening parenthesis closes the
/// name, its match is the final character, and the text between is the
/// argument.
proof fn lemma_parse_shape(name: Seq<char>, arg: Seq<char>)
    requires
        name.len() >= 1,
        free_of(name, '('),
        free_of(arg, '('),
        free_of(arg, ')'),
    ensures
        find_char_from(name + seq!['('] + arg + seq![')'], 0, '(') == Some(name.len() as int),
        find_close_from(
            name + seq!['('] + arg + seq![')'],
            name.len() as int,
            0,
        ) == Some(name.len() as int + arg.len() as int + 1),
        (name + seq!['('] + arg + seq![')']).subrange(0, name.len() as int) == name,
        (name + seq!['('] + arg + seq![')']).subrange(
            name.len() as int + 1,
            name.len() as int + 1 + arg.len() as int,
        ) == arg,
        (name + seq!['('] + arg + seq![')']).len() == name.len() + arg.len() + 2,
{
    let s = name + seq!['('] + arg + seq![')'];
    assert(s.len() == name.len() + arg.len() + 2);
    assert forall|j: int| 0 <= j < name.len() implies s[j] != '(' by {
        assert(s[j] == name[j]);
    }
    assert(s[name.len() as int] == '(');
    lemma_find_char_at(s, 0, name.len() as int, '(');
    assert(find_close_from(s, name.len() as int, 0) == find_close_from(
        s,
        name.len() as int + 1,
        1,
    ));
    assert forall|j: int| name.len() + 1 <= j < s.len() - 1 implies s[j] != '(' && s[j]
        != ')' by {
        assert(s[j] == arg[j - name.len() - 1]);
    }
    assert(s[s.len() - 1] == ')');
    lemma_find_close_flat(s, name.len() as int + 1, s.len() as int - 1);
    assert(s.subrange(0, name.len() as int) =~= name);
    assert(s.subrange(name.len() as int + 1, name.len() as int + 1 + arg.len() as int) =~= arg);
}

/// A decimal never starts with a sign.
proof fn lemma_digits_not_signed(n: nat)
    ensures
        dec_digits(n)[0] != '+',
        dec_digits(n)[0] != '-',
        free_of(dec_digits(n), '('),
        free_of(dec_digits(n), ')'),
        free_of(dec_digits(n), ','),
{
    crate::digits::lemma_atou_dec_digits(n);
    assert(crate::digits::is_digit_char(dec_digits(n)[0]));
    assert forall|i: int| 0 <= i < dec_digits(n).len() implies #[trigger] dec_digits(n)[i]
        != '(' && dec_digits(n)[i] != ')' && dec_digits(n)[i] != ',' by {
        assert(crate::digits::is_digit_char(dec_digits(n)[i]));
    }
}

/// What `str::parse::<i32>` makes of a rendered signed decimal.
proof fn lemma_parse_render_int(p: i32)
    ensures
        spec_parse_i32(render_int(p as int)) == Some(p),
        free_of(render_int(p as int), '('),
        free_of(render_int(p as int), ')'),
{
    if p >= 0 {
        crate::digits::lemma_atou_dec_digits(p as nat);
        lemma_digits_not_signed(p as nat);
    } else {
        let mag = (-(p as int)) as nat;
        crate::digits::lemma_atou_dec_digits(mag);
        lemma_digits_not_signed(mag);
        let s = render_int(p as int);
        assert(s[0] == '-');
        assert(s.drop_first() =~= dec_digits(mag));
        assert(all_digits(s.drop_first()));
        assert(atou(s.drop_first()) == mag);
        assert(mag <= 0x8000_0000);
        assert(spec_parse_i32(s) == Some((-(mag as int)) as i32));
        assert((-(mag as int)) as i32 == p);
        assert forall|i: int| 0 <= i < s.len() implies #[trigger] s[i] != '(' && s[i]
            != ')' by {
            if i > 0 {
                assert(s[i] == dec_digits(mag)[i - 1]);
                assert(crate::digits::is_digit_char(s[i]));
            }
        }
    }
}

/// Re-parsing a leaf filter's string form yields the same filter and
/// consumes the whole text, so the re-parsed filter evaluates exactly
/// as the filter it was rendered from, on every process.
pub proof fn lemma_leaf_round_trip(m: FilterModel)
    requires
        leaf_renderable(m),
    ensures
        spec_parse(spec_render_leaf(m)) == Ok::<(FilterModel, nat), ParseError>(
            (m, spec_render_leaf(m).len() as nat),
        ),
{
    let s = spec_render_leaf(m);
    match m {
        FilterModel::True => {
            lemma_parse_shape(op_true(), Seq::<char>::empty());
        },
        FilterModel::False => {
            lemma_parse_shape(op_false(), Seq::<char>::empty());
        },
        FilterModel::Uid(u) => {
            lemma_digits_not_signed(u as nat);
            crate::digits::lemma_atou_dec_digits(u as nat);
            lemma_parse_shape(op_uid(), dec_digits(u as nat));
            let inner = dec_digits(u as nat);
            assert(spec_parse_u32(inner) == Some(u));
        },
        FilterModel::Pid(p) => {
            lemma_parse_render_int(p);
            lemma_parse_shape(op_pid(), render_int(p as int));
        },
        FilterModel::Descendants(p) => {
            lemma_parse_render_int(p);
            lemma_parse_shape(op_descendants(), render_int(p as int));
        },
        FilterModel::Comm(c) => {
            lemma_parse_shape(op_comm(), c);
        },
        FilterModel::EnvKey(k) => {
            lemma_parse_shape(op_env_k(), k);
        },
        FilterModel::EnvKeyValue(k, v) => {
            let arg = k + seq![','] + v;
            assert forall|i: int| 0 <= i < arg.len() implies #[trigger] arg[i] != '(' && arg[i]
                != ')' by {
                if i < k.len() {
                    assert(arg[i] == k[i]);
                } else if i > k.len() {
                    assert(arg[i] == v[i - k.len() - 1]);
                }
            }
            lemma_parse_shape(op_env_kv(), arg);
            // the first comma sits right after the key
            assert(forall|j: int| 0 <= j < k.len() ==> #[trigger] arg[j] == k[j]);
            assert(arg[k.len() as int] == ',');
            lemma_find_char_at(arg, 0, k.len() as int, ',');
            assert(arg.subrange(0, k.len() as int) =~= k);
            let rest = arg.subrange(k.len() as int + 1, arg.len() as int);
            assert(rest =~= v);
            // and the value holds none
            lemma_find_char_at(v, 0, v.len() as int, ',');
            assert(spec_parse_env_kv(arg) == Ok::<FilterModel, ParseError>(
                FilterModel::EnvKeyValue(spec_trim(k), spec_trim(v)),
            ));
            assert(spec_parse_env_kv(arg) == Ok::<FilterModel, ParseError>(m));
        },
        FilterModel::And(_) => {},
        FilterModel::Or(_) => {},
        FilterModel::Not(_) => {},
    }
}


/// The filter text a pid-list split uses: one `pid(..)` leaf, or the
/// pids disjoined under one `or(..)`.
pub open spec fn spec_pid_split(pids: Seq<i32>) -> Seq<char> {
    if pids.len() == 1 {
        spec_render_leaf(FilterModel::Pid(pids[0]))
    } else {
        op_or() + seq!['('] + spec_pid_join(pids) + seq![')']
    }
}

pub open spec fn spec_pid_join(pids: Seq<i32>) -> Seq<char>
    decreases pids.len(),
{
    if pids.len() <= 1 {
        if pids.len() == 0 {
            Seq::<char>::empty()
        } else {
            spec_render_leaf(FilterModel::Pid(pids[0]))
        }
    } else {
        spec_pid_join(pids.drop_last()) + seq![','] + spec_render_leaf(
            FilterModel::Pid(pids.last()),
        )
    }
}

/// Renders one `pid(..)` leaf.
fn render_pid_leaf(pid: i32) -> (r: String)
    ensures
        r@ == spec_render_leaf(FilterModel::Pid(pid)),
{
    proof {
        reveal_strlit("pid(");
        reveal_strlit("-");
        reveal_strlit(")");
    }
    let prefix: &str = "pid(";
    let mut out = prefix.to_owned();
    if pid < 0 {
        let minus: &str = "-";
        out.append(minus);
        let magnitude = (-(pid as i64)) as u64;
        let digits = u64_to_string(magnitude);
        out.append(digits.as_str());
        proof {
            assert(render_int(pid as int) =~= seq!['-'] + dec_digits((-(pid as int)) as nat));
        }
    } else {
        let digits = u64_to_string(pid as u64);
        out.append(digits.as_str());
    }
    let close: &str = ")";
    out.append(close);
    proof {
        assert("pid("@ =~= op_pid() + seq!['(']);
        assert(out@ =~= spec_render_leaf(FilterModel::Pid(pid)));
    }
    out
}

/// Builds the filter text that groups an explicit pid list against the
/// rest: `pid(x)` for a single pid, `or(pid(a),pid(b),..)` for more.
pub fn pid_split_filter(pids: &Vec<i32>) -> (r: String)
    requires
        pids@.len() >= 1,
    ensures
        r@ == spec_pid_split(pids@),
{
    proof {
        reveal_strlit("or(");
        reveal_strlit(",");
        reveal_strlit(")");
    }
    if pids.len() == 1 {
        return render_pid_leaf(pids[0]);
    }
    let or_open: &str = "or(";
    let comma: &str = ",";
    let close: &str = ")";
    proof {
        assert(comma@ =~= seq![',']);
        assert(close@ =~= seq![')']);
    }
    let mut out = or_open.to_owned();
    let n = pids.len();
    let first = render_pid_leaf(pids[0]);
    out.append(first.as_str());
    proof {
        assert(pids@.take(1).drop_last() =~= Seq::<i32>::empty());
        assert(pids@.take(1)[0] == pids@[0]);
        assert(out@ =~= "or("@ + spec_pid_join(pids@.take(1)));
    }
    for i in 1..n
        invariant
            n == pids@.len(),
            comma@ == seq![','],
            out@ == "or("@ + spec_pid_join(pids@.take(i as int)),
    {
        out.append(comma);
        let leaf = render_pid_leaf(pids[i]);
        out.append(leaf.as_str());
        proof {
            reveal_strlit(",");
            assert(","@ =~= seq![',']);
            assert(pids@.take(i + 1).drop_last() =~= pids@.take(i as int));
            assert(pids@.take(i + 1).last() == pids@[i as int]);
            assert(out@ =~= "or("@ + spec_pid_join(pids@.take(i + 1)));
        }
    }
    out.append(close);
    proof {
        assert(pids@.take(n as int) =~= pids@);
        assert("or("@ =~= op_or() + seq!['(']);
        assert(out@ =~= spec_pid_split(pids@));
    }
    out
}


} // verus!
