//! The dataset text parser: block dispatch and the line-level rules for
//! attributes, classes and objects.  File reading stays outside; the parser
//! works on lines already split from the input text.

use vstd::prelude::*;
use vstd::string::{StringExecFns, StrSliceExecFns};
use crate::object::{plain_token, Attr, Object};
use crate::text::str_views;

verus! {

/// The whitespace characters the parser strips: space, tab and carriage
/// return (lines are already split at line feeds).
pub open spec fn is_space(c: char) -> bool {
    c == ' ' || c == '\t' || c == '\r'
}

/// The number of leading whitespace characters of `s`.
pub open spec fn lead_ws(s: Seq<char>) -> int
    decreases s.len(),
{
    if s.len() == 0 {
        0
    } else if is_space(s[0]) {
        1 + lead_ws(s.drop_first())
    } else {
        0
    }
}

/// The number of trailing whitespace characters of `s`.
pub open spec fn tail_ws(s: Seq<char>) -> int
    decreases s.len(),
{
    if s.len() == 0 {
        0
    } else if is_space(s.last()) {
        1 + tail_ws(s.drop_last())
    } else {
        0
    }
}

/// `s` with leading and trailing whitespace removed.
pub open spec fn trim_spec(s: Seq<char>) -> Seq<char> {
    if lead_ws(s) == s.len() {
        Seq::empty()
    } else {
        s.subrange(lead_ws(s), s.len() - tail_ws(s))
    }
}

/// The length of the leading run of non-whitespace characters of `s`.
pub open spec fn token_run(s: Seq<char>) -> int
    decreases s.len(),
{
    if s.len() == 0 || is_space(s[0]) {
        0
    } else {
        1 + token_run(s.drop_first())
    }
}

/// The whitespace-separated tokens of `s`, in order.
pub open spec fn tokens(s: Seq<char>) -> Seq<Seq<char>>
    decreases s.len(),
    via tokens_decreases
{
    if s.len() == 0 {
        Seq::empty()
    } else if is_space(s[0]) {
        tokens(s.drop_first())
    } else {
        seq![s.take(token_run(s))] + tokens(s.skip(token_run(s)))
    }
}

#[via_fn]
proof fn tokens_decreases(s: Seq<char>) {
    if s.len() > 0 && !is_space(s[0]) {
        lemma_token_run_le(s);
    }
}

/// The leading token never runs past the end.
proof fn lemma_token_run_le(s: Seq<char>)
    ensures
        0 <= token_run(s) <= s.len(),
        s.len() > 0 && !is_space(s[0]) ==> 1 <= token_run(s),
    decreases s.len(),
{
    if s.len() > 0 && !is_space(s[0]) {
        lemma_token_run_le(s.drop_first());
    }
}

/// If the first `i` characters are whitespace and the next one (when there
/// is one) is not, the leading whitespace run is exactly `i`.
proof fn lemma_lead_ws_at(s: Seq<char>, i: int)
    requires
        0 <= i <= s.len(),
        forall|k: int| 0 <= k < i ==> is_space(#[trigger] s[k]),
        i < s.len() ==> !is_space(s[i]),
    ensures
        lead_ws(s) == i,
    decreases i,
{
    if i == 0 {
    } else {
        lemma_lead_ws_at(s.drop_first(), i - 1);
        assert(is_space(s[0]));
    }
}

/// The counterpart of `lemma_lead_ws_at` at the end of the sequence.
proof fn lemma_tail_ws_at(s: Seq<char>, j: int)
    requires
        0 <= j <= s.len(),
        forall|k: int| j <= k < s.len() ==> is_space(#[trigger] s[k]),
        j > 0 ==> !is_space(s[j - 1]),
    ensures
        tail_ws(s) == s.len() - j,
    decreases s.len() - j,
{
    if j == s.len() {
        if s.len() > 0 {
            assert(!is_space(s.last()));
        }
    } else {
        assert(is_space(s.last()));
        lemma_tail_ws_at(s.drop_last(), j);
    }
}

/// If the first `m` characters are no whitespace and the next one (when
/// there is one) is, the leading token run is exactly `m`.
proof fn lemma_token_run_at(s: Seq<char>, m: int)
    requires
        0 <= m <= s.len(),
        forall|k: int| 0 <= k < m ==> !is_space(#[trigger] s[k]),
        m < s.len() ==> is_space(s[m]),
    ensures
        token_run(s) == m,
    decreases m,
{
    if m == 0 {
    } else {
        lemma_token_run_at(s.drop_first(), m - 1);
        assert(!is_space(s[0]));
    }
}

/// Every token is non-empty and free of whitespace; in particular it is a
/// plain token in the sense of the dataset model.
pub proof fn lemma_tokens_plain(s: Seq<char>)
    ensures
        forall|t: int| 0 <= t < tokens(s).len() ==> plain_token(#[trigger] tokens(s)[t]),
    decreases s.len(),
{
    if s.len() == 0 {
    } else if is_space(s[0]) {
        lemma_tokens_plain(s.drop_first());
        assert forall|t: int| 0 <= t < tokens(s).len() implies plain_token(
            #[trigger] tokens(s)[t],
        ) by {
            assert(tokens(s)[t] == tokens(s.drop_first())[t]);
            assert(plain_token(tokens(s.drop_first())[t]));
        }
    } else {
        lemma_token_run_le(s);
        lemma_tokens_plain(s.skip(token_run(s)));
        lemma_token_run_chars(s);
        assert forall|t: int| 0 <= t < tokens(s).len() implies plain_token(
            #[trigger] tokens(s)[t],
        ) by {
            if t == 0 {
                assert(tokens(s)[0] == s.take(token_run(s)));
                assert forall|k: int| 0 <= k < s.take(token_run(s)).len() implies #[trigger] s.take(
                    token_run(s),
                )[k] != ' ' by {
                    assert(s.take(token_run(s))[k] == s[k]);
                    assert(!is_space(s[k]));
                }
                assert(s.take(token_run(s)).len() > 0);
                assert(plain_token(tokens(s)[0]));
            } else {
                assert(tokens(s)[t] == tokens(s.skip(token_run(s)))[t - 1]);
            }
        }
    }
}

/// The characters inside the leading token run are no whitespace.
proof fn lemma_token_run_chars(s: Seq<char>)
    ensures
        forall|k: int| 0 <= k < token_run(s) ==> !is_space(#[trigger] s[k]),
    decreases s.len(),
{
    if s.len() > 0 && !is_space(s[0]) {
        lemma_token_run_chars(s.drop_first());
        lemma_token_run_le(s);
        assert forall|k: int| 0 <= k < token_run(s) implies !is_space(#[trigger] s[k]) by {
            if k > 0 {
                assert(!is_space(s.drop_first()[k - 1]));
                assert(s.drop_first()[k - 1] == s[k]);
            } else {
                assert(!is_space(s[0]));
            }
        }
    }
}

/// Whether `c` counts as whitespace for the parser.
fn is_space_c(c: char) -> (r: bool)
    ensures
        r == is_space(c),
{
    c == ' ' || c == '\t' || c == '\r'
}

/// `s` with leading and trailing whitespace removed.
pub fn trim(s: &str) -> (r: &str)
    ensures
        r@ == trim_spec(s@),
{
    let n = s.unicode_len();
    let mut i: usize = 0;
    while i < n && is_space_c(s.get_char(i))
        invariant
            0 <= i <= n,
            n == s@.len(),
            forall|k: int| 0 <= k < i ==> is_space(#[trigger] s@[k]),
        decreases n - i,
    {
        i = i + 1;
    }
    if i == n {
        proof {
            lemma_lead_ws_at(s@, n as int);
        }
        let r = s.substring_char(n, n);
        proof {
            assert(r@ =~= trim_spec(s@));
        }
        return r;
    }
    proof {
        lemma_lead_ws_at(s@, i as int);
    }
    let mut j: usize = n;
    while j > i && is_space_c(s.get_char(j - 1))
        invariant
            i <= j <= n,
            n == s@.len(),
            i < n,
            !is_space(s@[i as int]),
            forall|k: int| j <= k < n ==> is_space(#[trigger] s@[k]),
        decreases j,
    {
        j = j - 1;
    }
    proof {
        assert(j > i);
        assert(!is_space(s@[j - 1]));
        lemma_tail_ws_at(s@, j as int);
    }
    let r = s.substring_char(i, j);
    proof {
        assert(r@ =~= trim_spec(s@));
    }
    r
}

/// The whitespace-separated tokens of `s`, in order, as owned strings.
pub fn split_ws(s: &str) -> (r: Vec<String>)
    ensures
        str_views(r@) == tokens(s@),
{
    let n = s.unicode_len();
    let mut r: Vec<String> = Vec::new();
    let mut i: usize = 0;
    proof {
        assert(str_views(r@) =~= Seq::<Seq<char>>::empty());
        assert(s@.skip(0) =~= s@);
    }
    while i < n
        invariant
            0 <= i <= n,
            n == s@.len(),
            tokens(s@) == str_views(r@) + tokens(s@.skip(i as int)),
        decreases n - i,
    {
        if is_space_c(s.get_char(i)) {
            proof {
                assert(s@.skip(i as int).drop_first() =~= s@.skip(i + 1));
                assert(tokens(s@.skip(i as int)) == tokens(s@.skip(i + 1)));
            }
            i = i + 1;
        } else {
            let mut j: usize = i + 1;
            while j < n && !is_space_c(s.get_char(j))
                invariant
                    i < j <= n,
                    n == s@.len(),
                    forall|k: int| i <= k < j ==> !is_space(#[trigger] s@[k]),
                decreases n - j,
            {
                j = j + 1;
            }
            let tok = s.substring_char(i, j);
            let ghost suf = s@.skip(i as int);
            proof {
                assert forall|k: int| 0 <= k < j - i implies !is_space(#[trigger] suf[k]) by {
                    assert(!is_space(s@[i + k]));
                }
                if j < n {
                    assert(is_space(suf[j - i]));
                }
                lemma_token_run_at(suf, j - i);
                assert(tok@ =~= suf.take(j - i));
                assert(suf.skip(j - i) =~= s@.skip(j as int));
            }
            r.push(String::from_str(tok));
            proof {
                assert(str_views(r@) =~= str_views(r@.drop_last()) + seq![tok@]);
                assert(tokens(suf) == seq![suf.take(j - i)] + tokens(suf.skip(j - i)));
                assert(tokens(s@) =~= str_views(r@) + tokens(s@.skip(j as int)));
            }
            i = j;
        }
    }
    proof {
        assert(s@.skip(n as int) =~= Seq::<char>::empty());
        assert(tokens(s@) =~= str_views(r@));
    }
    r
}

/// Whether `c` is a decimal digit.
pub open spec fn is_digit(c: char) -> bool {
    48 <= c as int <= 57
}

/// All characters of `s` are decimal digits.
pub open spec fn all_digits(s: Seq<char>) -> bool {
    forall|i: int| 0 <= i < s.len() ==> is_digit(#[trigger] s[i])
}

/// The number the digit string `s` denotes, most significant digit first.
pub open spec fn digits_val(s: Seq<char>) -> int
    decreases s.len(),
{
    if s.len() == 0 {
        0
    } else {
        digits_val(s.drop_last()) * 10 + (s.last() as int - 48)
    }
}

/// `s` without an optional leading plus sign.
pub open spec fn strip_plus(s: Seq<char>) -> Seq<char> {
    if s.len() > 0 && s[0] == '+' {
        s.drop_first()
    } else {
        s
    }
}

/// A token that denotes an object id: an optional plus sign, then at least
/// one digit, with a value that fits the machine.
pub open spec fn usize_token_ok(s: Seq<char>) -> bool {
    &&& strip_plus(s).len() >= 1
    &&& all_digits(strip_plus(s))
    &&& digits_val(strip_plus(s)) <= usize::MAX
}

/// A digit string's value never falls below the value of any prefix.
proof fn lemma_digits_prefix(s: Seq<char>, m: int)
    requires
        all_digits(s),
        0 <= m <= s.len(),
    ensures
        digits_val(s) >= digits_val(s.take(m)) >= 0,
    decreases s.len(),
{
    if s.len() == 0 {
    } else {
        assert(is_digit(s[s.len() - 1]));
        assert(all_digits(s.drop_last())) by {
            assert forall|i: int| 0 <= i < s.drop_last().len() implies is_digit(
                #[trigger] s.drop_last()[i],
            ) by {
                assert(s.drop_last()[i] == s[i]);
            }
        }
        lemma_digits_prefix(s.drop_last(), if m < s.len() {
            m
        } else {
            m - 1
        });
        if m < s.len() {
            assert(s.take(m) =~= s.drop_last().take(m));
        } else {
            assert(s.take(m) =~= s);
        }
    }
}

/// Reads an object id from `s`: an optional plus sign followed by decimal
/// digits whose value fits the machine; anything else gives nothing.
pub fn parse_usize(s: &str) -> (r: Option<usize>)
    ensures
        r is Some <==> usize_token_ok(s@),
        r matches Some(v) ==> v == digits_val(strip_plus(s@)),
{
    let n = s.unicode_len();
    let mut i: usize = 0;
    if n > 0 && s.get_char(0) == '+' {
        i = 1;
    }
    let ghost t = strip_plus(s@);
    proof {
        assert(t =~= s@.skip(i as int));
    }
    if i == n {
        proof {
            assert(t.len() == 0);
        }
        return None;
    }
    let mut acc: usize = 0;
    let mut k: usize = i;
    while k < n
        invariant
            i <= k <= n,
            n == s@.len(),
            i < n,
            t == strip_plus(s@),
            t =~= s@.skip(i as int),
            forall|w: int| i <= w < k ==> is_digit(#[trigger] s@[w]),
            acc == digits_val(s@.subrange(i as int, k as int)),
        decreases n - k,
    {
        let c = s.get_char(k);
        let u = c as u32;
        if u < 48 || u > 57 {
            proof {
                assert(t[k - i] == s@[k as int]);
                assert(!is_digit(t[k - i]));
            }
            return None;
        }
        let d: usize = (u - 48) as usize;
        proof {
            vstd::arithmetic::div_mod::lemma_fundamental_div_mod(usize::MAX as int, 10);
        }
        if acc > usize::MAX / 10 || (acc == usize::MAX / 10 && d > usize::MAX % 10) {
            proof {
                let pre = s@.subrange(i as int, k + 1);
                assert(pre.drop_last() =~= s@.subrange(i as int, k as int));
                assert(pre.last() == s@[k as int]);
                assert(digits_val(pre) == acc * 10 + d);
                assert(digits_val(pre) > usize::MAX);
                if usize_token_ok(s@) {
                    lemma_digits_prefix(t, k + 1 - i);
                    assert(t.take(k + 1 - i) =~= pre);
                    assert(false);
                }
            }
            return None;
        }
        proof {
            let pre = s@.subrange(i as int, k + 1);
            assert(pre.drop_last() =~= s@.subrange(i as int, k as int));
            assert(pre.last() == s@[k as int]);
        }
        acc = acc * 10 + d;
        k = k + 1;
    }
    proof {
        assert(s@.subrange(i as int, n as int) =~= t);
        assert forall|w: int| 0 <= w < t.len() implies is_digit(#[trigger] t[w]) by {
            assert(t[w] == s@[i + w]);
        }
        assert(usize_token_ok(s@));
    }
    Some(acc)
}

/// How often `ch` occurs in `s`.
pub open spec fn count_ch(s: Seq<char>, ch: char) -> int
    decreases s.len(),
{
    if s.len() == 0 {
        0
    } else {
        count_ch(s.drop_last(), ch) + if s.last() == ch {
            1int
        } else {
            0int
        }
    }
}

/// The first index at which `ch` occurs in `s` (its length when it does
/// not).
pub open spec fn idx_ch(s: Seq<char>, ch: char) -> int
    decreases s.len(),
{
    if s.len() == 0 {
        0
    } else if s[0] == ch {
        0
    } else {
        1 + idx_ch(s.drop_first(), ch)
    }
}

/// Scan facts pin down the occurrence count and the first index.
proof fn lemma_ch_facts(s: Seq<char>, ch: char, at: int)
    requires
        0 <= at <= s.len(),
        forall|k: int| 0 <= k < at ==> s[k] != ch,
        at < s.len() ==> s[at] == ch,
    ensures
        at < s.len() ==> idx_ch(s, ch) == at,
        at == s.len() ==> count_ch(s, ch) == 0,
        at < s.len() && (forall|k: int| at < k < s.len() ==> s[k] != ch) ==> count_ch(s, ch) == 1,
        at < s.len() && (exists|k: int| at < k < s.len() && s[k] == ch) ==> count_ch(s, ch) >= 2,
    decreases s.len(),
{
    if s.len() == 0 {
    } else {
        let d = s.drop_last();
        if at == s.len() {
            lemma_ch_facts(d, ch, at - 1);
        } else if at == s.len() - 1 {
            lemma_ch_facts(d, ch, at);
            if at > 0 || d.len() > 0 {
                assert(forall|k: int| 0 <= k < d.len() ==> d[k] == s[k]);
            }
            lemma_idx_ch_shifted(s, ch, at);
        } else {
            assert(forall|k: int| 0 <= k < d.len() ==> d[k] == s[k]);
            lemma_ch_facts(d, ch, at);
            lemma_idx_ch_shifted(s, ch, at);
            if exists|k: int| at < k < s.len() && s[k] == ch {
                let w = choose|k: int| at < k < s.len() && s[k] == ch;
                if w < s.len() - 1 {
                    assert(exists|k: int| at < k < d.len() && d[k] == ch) by {
                        assert(d[w] == ch);
                    }
                }
            }
        }
    }
}

/// The first-occurrence index respects a clean prefix.
proof fn lemma_idx_ch_shifted(s: Seq<char>, ch: char, at: int)
    requires
        0 <= at < s.len(),
        forall|k: int| 0 <= k < at ==> s[k] != ch,
        s[at] == ch,
    ensures
        idx_ch(s, ch) == at,
    decreases at,
{
    if at > 0 {
        assert(s[0] != ch);
        lemma_idx_ch_shifted(s.drop_first(), ch, at - 1);
        assert(forall|k: int| 0 <= k < s.drop_first().len() ==> s.drop_first()[k] == s[k + 1]);
    }
}

/// Character-wise string equality.
pub fn str_eq(a: &str, b: &str) -> (r: bool)
    ensures
        r == (a@ == b@),
{
    let na = a.unicode_len();
    let nb = b.unicode_len();
    if na != nb {
        proof {
            assert(a@ != b@);
        }
        return false;
    }
    let mut i: usize = 0;
    while i < na
        invariant
            0 <= i <= na,
            na == a@.len(),
            na == b@.len(),
            forall|k: int| 0 <= k < i ==> a@[k] == b@[k],
        decreases na - i,
    {
        if a.get_char(i) != b.get_char(i) {
            proof {
                assert(a@[i as int] != b@[i as int]);
            }
            return false;
        }
        i = i + 1;
    }
    proof {
        assert(a@ =~= b@);
    }
    true
}

/// What can go wrong while reading a dataset text.
#[derive(Debug, PartialEq, Eq)]
pub enum ParserErr {
    /// The input could not be read at all.
    ReadErr,
    /// A block was opened but its closing brace never came.
    NotEndedBlock,
    /// A line fits no rule of the format.
    UnexpectedFormat,
    /// A class line holds anything but one single name.
    InvalidClassName(String),
    /// An object line came before attributes and classes were declared.
    InvalidOrder,
    /// An object line has the wrong shape or a bad id.
    InvalidObject,
}

impl ParserErr {
    /// A human-readable description of the error.
    pub fn message(&self) -> (r: String)
        ensures
            self is ReadErr ==> r@ == "error reading file"@,
            self is NotEndedBlock ==> r@ == "block not ended"@,
            self is UnexpectedFormat ==> r@ == "unexpected file format"@,
            self matches ParserErr::InvalidClassName(c) ==> r@ == "invalid class name '"@ + c@
                + "'"@,
            self is InvalidOrder ==> r@ == "objects before attributes and classes"@,
            self is InvalidObject ==> r@ == "invalid object format"@,
    {
        match self {
            ParserErr::ReadErr => String::from_str("error reading file"),
            ParserErr::NotEndedBlock => String::from_str("block not ended"),
            ParserErr::UnexpectedFormat => String::from_str("unexpected file format"),
            ParserErr::InvalidClassName(class) => {
                let mut r = String::from_str("invalid class name '");
                r.append(class.as_str());
                r.append("'");
                r
            },
            ParserErr::InvalidOrder => String::from_str("objects before attributes and classes"),
            ParserErr::InvalidObject => String::from_str("invalid object format"),
        }
    }
}

/// Which block a brace-delimited section fills.
enum BlockKind {
    Attrs,
    Classes,
    Objects,
}

/// Every declared attribute carries its positional index, and its domain
/// values are plain tokens.
pub open spec fn parser_wf(p: Parser) -> bool {
    forall|i: int|
        0 <= i < p.attr@.len() ==> (#[trigger] p.attr@[i]).id == i && attr_tokens_ok(p.attr@[i])
}

/// The domain values of `a` are plain tokens.
pub open spec fn attr_tokens_ok(a: Attr) -> bool {
    forall|j: int| 0 <= j < a.values@.len() ==> plain_token(#[trigger] a.values@[j]@)
}

/// Parsing only appends: everything declared in `p0` stands unchanged, at
/// its place, in `p1`.
pub open spec fn grows(p0: Parser, p1: Parser) -> bool {
    &&& p0.attr@.len() <= p1.attr@.len()
    &&& forall|q: int| 0 <= q < p0.attr@.len() ==> p1.attr@[q] == p0.attr@[q]
    &&& p0.class@.len() <= p1.class@.len()
    &&& forall|q: int| 0 <= q < p0.class@.len() ==> p1.class@[q] == p0.class@[q]
    &&& p0.object@.len() <= p1.object@.len()
    &&& forall|q: int| 0 <= q < p0.object@.len() ==> p1.object@[q] == p0.object@[q]
}

/// The in-memory dataset a parse produces: attributes, classes, objects.
pub struct Parser {
    /// Declared attributes, in declaration order.
    pub attr: Vec<Attr>,
    /// Declared class labels, in declaration order.
    pub class: Vec<String>,
    /// Parsed objects, in declaration order.
    pub object: Vec<Object>,
}

impl Parser {
    /// Parses a whole dataset text, given as its lines: brace-delimited
    /// `attributes`, `classes` and `objects` blocks in any order, blank
    /// lines in between.
    pub fn parse(lines: &Vec<String>) -> (r: Result<Parser, ParserErr>)
        ensures
            r matches Ok(p) ==> parser_wf(p),
    {
        let mut parser = Parser { attr: Vec::new(), class: Vec::new(), object: Vec::new() };
        let mut i: usize = 0;
        while i < lines.len()
            invariant
                0 <= i <= lines@.len(),
                parser_wf(parser),
            decreases lines@.len() - i,
        {
            let line = trim(lines[i].as_str());
            i = i + 1;
            if str_eq(line, "attributes {") {
                match parser.parse_block(lines, &mut i, BlockKind::Attrs) {
                    Ok(()) => {},
                    Err(e) => {
                        return Err(e);
                    },
                }
            } else if str_eq(line, "classes {") {
                match parser.parse_block(lines, &mut i, BlockKind::Classes) {
                    Ok(()) => {},
                    Err(e) => {
                        return Err(e);
                    },
                }
            } else if str_eq(line, "objects {") {
                match parser.parse_block(lines, &mut i, BlockKind::Objects) {
                    Ok(()) => {},
                    Err(e) => {
                        return Err(e);
                    },
                }
            } else if line.unicode_len() == 0 {
            } else {
                return Err(ParserErr::UnexpectedFormat);
            }
        }
        Ok(parser)
    }

    /// Reads lines into one block until its closing brace, handing each
    /// non-blank line to the rule for `kind`.
    fn parse_block(
        &mut self,
        lines: &Vec<String>,
        pos: &mut usize,
        kind: BlockKind,
    ) -> (r: Result<(), ParserErr>)
        requires
            parser_wf(*old(self)),
            *old(pos) <= lines@.len(),
        ensures
            parser_wf(*final(self)),
            *old(pos) <= *final(pos) <= lines@.len(),
            grows(*old(self), *final(self)),
    {
        let mut i: usize = *pos;
        while i < lines.len()
            invariant
                *old(pos) <= i <= lines@.len(),
                parser_wf(*self),
                grows(*old(self), *self),
            decreases lines@.len() - i,
        {
            let line = trim(lines[i].as_str());
            i = i + 1;
            if str_eq(line, "}") {
                *pos = i;
                return Ok(());
            }
            if line.unicode_len() == 0 {
                continue ;
            }
            let step = match kind {
                BlockKind::Attrs => self.parse_attr(line),
                BlockKind::Classes => self.parse_class(line),
                BlockKind::Objects => self.parse_object(line),
            };
            match step {
                Ok(()) => {},
                Err(e) => {
                    *pos = i;
                    return Err(e);
                },
            }
        }
        *pos = i;
        Err(ParserErr::NotEndedBlock)
    }

    /// Reads one attribute line, `name : value value ...`: the part before
    /// the single colon, trimmed, names the attribute; the tokens after it
    /// form its domain, in order.  The attribute gets the next positional
    /// index.
    fn parse_attr(&mut self, line: &str) -> (r: Result<(), ParserErr>)
        requires
            parser_wf(*old(self)),
        ensures
            parser_wf(*final(self)),
            final(self).class == old(self).class,
            final(self).object == old(self).object,
            r is Ok <==> count_ch(line@, ':') == 1,
            r is Ok ==> {
                &&& final(self).attr@.len() == old(self).attr@.len() + 1
                &&& forall|q: int|
                    0 <= q < old(self).attr@.len() ==> final(self).attr@[q] == old(self).attr@[q]
                &&& final(self).attr@.last().id == old(self).attr@.len()
                &&& final(self).attr@.last().name@ == trim_spec(
                    line@.take(idx_ch(line@, ':')),
                )
                &&& str_views(final(self).attr@.last().values@) == tokens(
                    line@.skip(idx_ch(line@, ':') + 1),
                )
            },
            r is Err ==> final(self).attr == old(self).attr && r == Err::<(), ParserErr>(
                ParserErr::UnexpectedFormat,
            ),
    {
        let n = line.unicode_len();
        let mut colon: usize = 0;
        while colon < n && line.get_char(colon) != ':'
            invariant
                0 <= colon <= n,
                n == line@.len(),
                forall|w: int| 0 <= w < colon ==> line@[w] != ':',
            decreases n - colon,
        {
            colon = colon + 1;
        }
        if colon == n {
            proof {
                lemma_ch_facts(line@, ':', n as int);
            }
            return Err(ParserErr::UnexpectedFormat);
        }
        let mut k: usize = colon + 1;
        while k < n && line.get_char(k) != ':'
            invariant
                colon < k <= n,
                n == line@.len(),
                forall|w: int| colon < w < k ==> line@[w] != ':',
            decreases n - k,
        {
            k = k + 1;
        }
        if k < n {
            proof {
                lemma_ch_facts(line@, ':', colon as int);
                assert(line@[k as int] == ':');
            }
            return Err(ParserErr::UnexpectedFormat);
        }
        proof {
            lemma_ch_facts(line@, ':', colon as int);
        }
        let head = line.substring_char(0, colon);
        let name_str = trim(head);
        let tail = line.substring_char(colon + 1, n);
        let values = split_ws(tail);
        proof {
            assert(head@ =~= line@.take(colon as int));
            assert(tail@ =~= line@.skip(colon + 1));
            lemma_tokens_plain(tail@);
        }
        let next_id = self.attr.len();
        self.attr.push(Attr { id: next_id, name: String::from_str(name_str), values });
        proof {
            assert(attr_tokens_ok(self.attr@.last())) by {
                assert forall|j: int| 0 <= j < self.attr@.last().values@.len() implies plain_token(
                    #[trigger] self.attr@.last().values@[j]@,
                ) by {
                    assert(str_views(self.attr@.last().values@)[j] == self.attr@.last().values@[j]@);
                    assert(plain_token(tokens(tail@)[j]));
                }
            }
            assert forall|q: int| 0 <= q < self.attr@.len() implies (#[trigger] self.attr@[q]).id
                == q && attr_tokens_ok(self.attr@[q]) by {
                if q < self.attr@.len() - 1 {
                    assert(self.attr@[q] == old(self).attr@[q]);
                }
            }
        }
        Ok(())
    }

    /// Reads one class line: a single token that names the class.
    fn parse_class(&mut self, line: &str) -> (r: Result<(), ParserErr>)
        requires
            parser_wf(*old(self)),
        ensures
            parser_wf(*final(self)),
            final(self).attr == old(self).attr,
            final(self).object == old(self).object,
            r is Ok <==> tokens(line@).len() == 1,
            r is Ok ==> final(self).class@.len() == old(self).class@.len() + 1
                && final(self).class@.last()@ == line@ && forall|q: int|
                0 <= q < old(self).class@.len() ==> final(self).class@[q] == old(self).class@[q],
            r matches Err(e) ==> final(self).class == old(self).class && (e matches
                ParserErr::InvalidClassName(m) && m@ == line@),
    {
        let parts = split_ws(line);
        proof {
            assert(str_views(parts@).len() == parts@.len());
        }
        if parts.len() != 1 {
            return Err(ParserErr::InvalidClassName(String::from_str(line)));
        }
        self.class.push(String::from_str(line));
        Ok(())
    }

    /// Reads one object line: an id token, a class token, and one value
    /// token per declared attribute, in attribute order.  Objects are
    /// rejected until attributes and classes have been declared.
    fn parse_object(&mut self, line: &str) -> (r: Result<(), ParserErr>)
        requires
            parser_wf(*old(self)),
        ensures
            parser_wf(*final(self)),
            final(self).attr == old(self).attr,
            final(self).class == old(self).class,
            old(self).attr@.len() == 0 || old(self).class@.len() == 0 ==> r == Err::<
                (),
                ParserErr,
            >(ParserErr::InvalidOrder) && final(self).object == old(self).object,
            old(self).attr@.len() > 0 && old(self).class@.len() > 0 ==> {
                &&& (r is Ok <==> tokens(line@).len() == old(self).attr@.len() + 2
                    && usize_token_ok(tokens(line@)[0]))
                &&& r is Err ==> r == Err::<(), ParserErr>(ParserErr::InvalidObject)
                    && final(self).object == old(self).object
                &&& r is Ok ==> {
                    &&& final(self).object@.len() == old(self).object@.len() + 1
                    &&& forall|q: int|
                        0 <= q < old(self).object@.len() ==> final(self).object@[q] == old(
                            self,
                        ).object@[q]
                    &&& final(self).object@.last().id == digits_val(
                        strip_plus(tokens(line@)[0]),
                    )
                    &&& final(self).object@.last().class@ == tokens(line@)[1]
                    &&& str_views(final(self).object@.last().attr@) == tokens(line@).subrange(
                        2,
                        tokens(line@).len() as int,
                    )
                }
            },
    {
        if self.attr.len() == 0 || self.class.len() == 0 {
            return Err(ParserErr::InvalidOrder);
        }
        let parts = split_ws(line);
        proof {
            assert(str_views(parts@).len() == parts@.len());
        }
        if parts.len() < 2 || parts.len() - 2 != self.attr.len() {
            return Err(ParserErr::InvalidObject);
        }
        proof {
            assert(str_views(parts@)[0] == parts@[0]@);
            assert(str_views(parts@)[1] == parts@[1]@);
        }
        let oid = match parse_usize(parts[0].as_str()) {
            Some(v) => v,
            None => {
                return Err(ParserErr::InvalidObject);
            },
        };
        let mut vals: Vec<String> = Vec::new();
        let mut k: usize = 2;
        while k < parts.len()
            invariant
                2 <= k <= parts@.len(),
                vals@.len() == k - 2,
                forall|w: int| 0 <= w < vals@.len() ==> #[trigger] vals@[w]@ == parts@[w + 2]@,
            decreases parts@.len() - k,
        {
            vals.push(parts[k].clone());
            k = k + 1;
        }
        proof {
            assert(str_views(vals@) =~= tokens(line@).subrange(2, tokens(line@).len() as int));
        }
        self.object.push(Object::new(oid, parts[1].clone(), vals));
        Ok(())
    }
}

} // verus!
