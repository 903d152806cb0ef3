//! The name of a strategy as a line of text: a name, or a name and a
//! parameter, or those and a number, separated by commas. Names may be cut
//! short and are matched without regard to case; in fact each field is
//! taken as a pattern of the `regex` crate that a name has to begin with.

use crate::algorithms::{Algorithm, Bias, CellSelection, Scan};
use regex::Regex;
use vstd::prelude::*;
use vstd::string::*;

verus! {

/// Why a text names no strategy.
#[derive(Clone, Copy, PartialEq, Eq, Structural, Debug)]
pub enum DecodeError {
    /// The text is not one, two or three fields separated by commas, none
    /// of them empty.
    IncorrectFormat,
    /// The name or the parameter is no pattern that the `regex` crate
    /// accepts.
    BadPattern,
    /// The fields do not name a strategy with a parameter that fits it.
    ExtractFail,
}

/// What `Regex::is_match` returns for the text, on the regex that
/// `Regex::new` makes of the pattern; `None` where `Regex::new` refuses
/// the pattern.
pub uninterp spec fn regex_match(pattern: Seq<char>, text: Seq<char>) -> Option<bool>;

/// `Regex::new`, and `Regex::is_match` on its result: whether the pattern
/// matches somewhere in the text, or `None` where the pattern cannot be
/// compiled.
#[verifier::external_body]
fn is_match(pattern: &str, text: &str) -> (r: Option<bool>)
    ensures
        r == regex_match(pattern@, text@),
{
    match Regex::new(pattern) {
        Ok(re) => Some(re.is_match(text)),
        Err(_) => None,
    }
}

/// The position of the first comma, or the length of the text where it
/// has none.
pub open spec fn first_comma(text: Seq<char>) -> int
    decreases text.len(),
{
    if text.len() == 0 || text[0] == ',' {
        0
    } else {
        1 + first_comma(text.drop_first())
    }
}

/// The text up to its first comma.
pub open spec fn head(text: Seq<char>) -> Seq<char> {
    text.take(first_comma(text))
}

/// Whether the text has a comma.
pub open spec fn has_rest(text: Seq<char>) -> bool {
    first_comma(text) < text.len()
}

/// The text after its first comma.
pub open spec fn rest(text: Seq<char>) -> Seq<char> {
    text.skip(first_comma(text) + 1)
}

pub proof fn lemma_first_comma(text: Seq<char>, i: int)
    requires
        0 <= i <= text.len(),
        forall|k: int| 0 <= k < i ==> text[k] != ',',
        i == text.len() || text[i] == ',',
    ensures
        first_comma(text) == i,
    decreases i,
{
    if i > 0 {
        let shorter = text.drop_first();
        assert forall|k: int| 0 <= k < i - 1 implies shorter[k] != ',' by {
            assert(shorter[k] == text[k + 1]);
        }
        lemma_first_comma(shorter, i - 1);
    }
}

/// Cuts the text at its first comma: the part before it and, where there
/// is a comma, the part after it.
pub fn split_first<'a>(text: &'a str) -> (parts: (&'a str, Option<&'a str>))
    ensures
        parts.0@ == head(text@),
        match parts.1 {
            Some(more) => has_rest(text@) && more@ == rest(text@),
            None => !has_rest(text@),
        },
{
    let n = text.unicode_len();
    let mut i: usize = 0;
    while i < n && text.get_char(i) != ','
        invariant
            i <= n,
            n == text@.len(),
            forall|k: int| 0 <= k < i ==> text@[k] != ',',
        decreases n - i,
    {
        i += 1;
    }
    proof {
        lemma_first_comma(text@, i as int);
    }
    let first = text.substring_char(0, i);
    if i < n {
        (first, Some(text.substring_char(i + 1, n)))
    } else {
        (first, None)
    }
}

/// The three fields of a text in the right format, the missing ones
/// empty.
pub struct Fields<'a> {
    pub algorithm: &'a str,
    pub param: &'a str,
    pub value: &'a str,
}

/// One, two or three fields separated by commas, none of them empty.
pub open spec fn in_format(text: Seq<char>) -> bool {
    &&& head(text).len() > 0
    &&& has_rest(text) ==> {
        &&& head(rest(text)).len() > 0
        &&& has_rest(rest(text)) ==> head(rest(rest(text))).len() > 0 && !has_rest(rest(rest(text)))
    }
}

/// The second field, or the empty text where there is none.
pub open spec fn param_of(text: Seq<char>) -> Seq<char> {
    if has_rest(text) {
        head(rest(text))
    } else {
        Seq::empty()
    }
}

/// The third field, or the empty text where there is none.
pub open spec fn value_of(text: Seq<char>) -> Seq<char> {
    if has_rest(text) && has_rest(rest(text)) {
        head(rest(rest(text)))
    } else {
        Seq::empty()
    }
}

/// Cuts a text into its fields, if it is in the right format.
pub fn split_fields<'a>(text: &'a str) -> (fields: Option<Fields<'a>>)
    ensures
        match fields {
            Some(f) => in_format(text@) && f.algorithm@ == head(text@) && f.param@ == param_of(text@) && f.value@
                == value_of(text@),
            None => !in_format(text@),
        },
{
    proof {
        reveal_strlit("");
        assert(""@ =~= Seq::<char>::empty());
    }
    let (algorithm, more) = split_first(text);
    if algorithm.unicode_len() == 0 {
        return None;
    }
    let after = match more {
        Some(after) => after,
        None => {
            return Some(Fields { algorithm, param: "", value: "" });
        },
    };
    let (param, more) = split_first(after);
    if param.unicode_len() == 0 {
        return None;
    }
    let after = match more {
        Some(after) => after,
        None => {
            return Some(Fields { algorithm, param, value: "" });
        },
    };
    let (value, more) = split_first(after);
    if value.unicode_len() == 0 || more.is_some() {
        return None;
    }
    Some(Fields { algorithm, param, value })
}

/// The value of a decimal digit.
pub open spec fn digit(c: char) -> int {
    c as int - '0' as int
}

pub open spec fn is_digit(c: char) -> bool {
    '0' <= c && c <= '9'
}

/// The number that a row of decimal digits stands for.
pub open spec fn decimal(digits: Seq<char>) -> int
    decreases digits.len(),
{
    if digits.len() == 0 {
        0
    } else {
        decimal(digits.drop_last()) * 10 + digit(digits.last())
    }
}

/// The digits of a number text: the text without a plus sign in front.
pub open spec fn unsigned(text: Seq<char>) -> Seq<char> {
    if text.len() > 0 && text[0] == '+' {
        text.drop_first()
    } else {
        text
    }
}

/// The number a text stands for: decimal digits, at least one, with or
/// without a plus sign in front, that make a number which fits a `usize`.
pub open spec fn number(text: Seq<char>) -> Option<usize> {
    let digits = unsigned(text);
    if digits.len() > 0 && (forall|k: int| 0 <= k < digits.len() ==> is_digit(#[trigger] digits[k])) && decimal(digits)
        <= usize::MAX {
        Some(decimal(digits) as usize)
    } else {
        None
    }
}

/// More digits never make a smaller number.
pub proof fn lemma_decimal_grows(digits: Seq<char>, k: int)
    requires
        0 <= k <= digits.len(),
        forall|j: int| 0 <= j < digits.len() ==> is_digit(#[trigger] digits[j]),
    ensures
        0 <= decimal(digits.take(k)) <= decimal(digits),
    decreases digits.len() - k,
{
    if k == digits.len() {
        assert(digits.take(k) =~= digits);
        lemma_decimal_positive(digits);
    } else {
        lemma_decimal_grows(digits, k + 1);
        assert(digits.take(k + 1).drop_last() =~= digits.take(k));
        let longer = digits.take(k + 1);
        assert(is_digit(digits[k]));
        assert(longer.last() == digits[k]);
        lemma_decimal_positive(digits.take(k));
    }
}

pub proof fn lemma_decimal_positive(digits: Seq<char>)
    requires
        forall|j: int| 0 <= j < digits.len() ==> is_digit(#[trigger] digits[j]),
    ensures
        0 <= decimal(digits),
    decreases digits.len(),
{
    if digits.len() > 0 {
        assert forall|j: int| 0 <= j < digits.drop_last().len() implies is_digit(#[trigger] digits.drop_last()[j]) by {
            assert(digits.drop_last()[j] == digits[j]);
        }
        lemma_decimal_positive(digits.drop_last());
        assert(is_digit(digits[digits.len() - 1]));
    }
}

/// Reads a number as `usize::from_str` does.
pub fn parse_number(text: &str) -> (r: Option<usize>)
    ensures
        r == number(text@),
{
    let n = text.unicode_len();
    let start: usize = if n > 0 && text.get_char(0) == '+' { 1 } else { 0 };
    let ghost digits = unsigned(text@);
    proof {
        assert(digits.len() == n - start);
    }
    if start == n {
        return None;
    }
    let mut value: usize = 0;
    let mut i: usize = start;
    proof {
        assert(digits.take(0) =~= Seq::<char>::empty());
    }
    while i < n
        invariant
            start <= i <= n,
            n == text@.len(),
            digits == unsigned(text@),
            digits.len() == n - start,
            forall|k: int| 0 <= k < digits.len() ==> #[trigger] digits[k] == text@[k + start],
            forall|k: int| 0 <= k < i - start ==> is_digit(#[trigger] digits[k]),
            value == decimal(digits.take(i - start)),
        decreases n - i,
    {
        let c = text.get_char(i);
        if c < '0' || c > '9' {
            proof {
                assert(!is_digit(digits[i - start]));
            }
            return None;
        }
        let d = (c as u32 - '0' as u32) as usize;
        proof {
            assert(digits.take(i - start + 1).drop_last() =~= digits.take(i - start));
            assert(digits.take(i - start + 1).last() == c);
            assert(d == digit(c));
        }
        let next = match value.checked_mul(10) {
            Some(tens) => tens.checked_add(d),
            None => None,
        };
        match next {
            Some(sum) => {
                value = sum;
            },
            None => {
                proof {
                    assert(decimal(digits.take(i - start + 1)) > usize::MAX);
                    if forall|k: int| 0 <= k < digits.len() ==> is_digit(#[trigger] digits[k]) {
                        lemma_decimal_grows(digits, i - start + 1);
                    }
                }
                return None;
            },
        }
        i += 1;
    }
    proof {
        assert(digits.take(n - start) =~= digits);
    }
    Some(value)
}

/// The pattern that a field stands for: any name that begins with what the
/// field matches, without regard to case.
pub open spec fn prefix_pattern(field: Seq<char>) -> Seq<char> {
    "(?i)^"@ + field + ".*$"@
}

/// Whether the field, as a pattern, fits the name.
pub open spec fn fits(field: Seq<char>, name: Seq<char>) -> bool {
    regex_match(prefix_pattern(field), name) == Some(true)
}

/// Matches a name against the pattern of a field.
pub fn match_name(field: &str, name: &str) -> (r: Option<bool>)
    ensures
        r == regex_match(prefix_pattern(field@), name@),
{
    let mut pattern = String::from_str("(?i)^");
    pattern.append(field);
    pattern.append(".*$");
    is_match(pattern.as_str(), name)
}

/// Which names of strategies the first field fits.
pub struct NameHits {
    pub prims: bool,
    pub growing_tree: bool,
    pub binary_tree: bool,
    pub sidewinder: bool,
    pub recursive_backtracking: bool,
    pub ellers: bool,
    pub kruskals: bool,
    pub recursive_division: bool,
    pub hunt_kill: bool,
}

/// Which names of parameters the second field fits.
pub struct ParamHits {
    pub newest: bool,
    pub oldest: bool,
    pub random: bool,
    pub newest_oldest: bool,
    pub newest_random: bool,
    pub oldest_random: bool,
    pub northeast: bool,
    pub northwest: bool,
    pub southeast: bool,
    pub southwest: bool,
    pub horizontal: bool,
    pub vertical: bool,
}

/// The policy of a growing tree that the parameter names. A mixed policy
/// needs a number, and with a number it comes before a plain one.
pub open spec fn selection_of(p: ParamHits, value: Option<usize>) -> Option<CellSelection> {
    if value.is_some() && p.newest_oldest {
        Some(CellSelection::NewestOldest(value.unwrap()))
    } else if value.is_some() && p.newest_random {
        Some(CellSelection::NewestRandom(value.unwrap()))
    } else if value.is_some() && p.oldest_random {
        Some(CellSelection::OldestRandom(value.unwrap()))
    } else if p.newest {
        Some(CellSelection::Newest)
    } else if p.oldest {
        Some(CellSelection::Oldest)
    } else if p.random {
        Some(CellSelection::Random)
    } else {
        None
    }
}

pub open spec fn bias_of(p: ParamHits) -> Option<Bias> {
    if p.northeast {
        Some(Bias::Northeast)
    } else if p.northwest {
        Some(Bias::Northwest)
    } else if p.southeast {
        Some(Bias::Southeast)
    } else if p.southwest {
        Some(Bias::Southwest)
    } else {
        None
    }
}

pub open spec fn scan_of(p: ParamHits) -> Option<Scan> {
    if p.horizontal {
        Some(Scan::Horizontal)
    } else if p.vertical {
        Some(Scan::Vertical)
    } else {
        None
    }
}

/// The strategy that the hits name: the first name that fits, in a fixed
/// order, with the parameter that this strategy asks for.
pub open spec fn chosen(a: NameHits, p: ParamHits, value: Option<usize>) -> Option<Algorithm> {
    if a.prims {
        Some(Algorithm::PrimsAlgorithm)
    } else if a.growing_tree {
        match selection_of(p, value) {
            Some(selection) => Some(Algorithm::GrowingTree(selection)),
            None => None,
        }
    } else if a.binary_tree {
        match bias_of(p) {
            Some(bias) => Some(Algorithm::BinaryTree(bias)),
            None => None,
        }
    } else if a.sidewinder {
        match scan_of(p) {
            Some(scan) => Some(Algorithm::SidewinderAlgorithm(scan)),
            None => None,
        }
    } else if a.recursive_backtracking {
        Some(Algorithm::RecursiveBacktracking)
    } else if a.ellers {
        match scan_of(p) {
            Some(scan) => Some(Algorithm::EllersAlgorithm(scan)),
            None => None,
        }
    } else if a.kruskals {
        Some(Algorithm::KruskalsAlgorithm)
    } else if a.recursive_division {
        Some(Algorithm::RecursiveDivision)
    } else if a.hunt_kill {
        Some(Algorithm::HuntKillAlgorithm)
    } else {
        None
    }
}

/// Picks the strategy that the hits name.
pub fn choose_algorithm(a: &NameHits, p: &ParamHits, value: Option<usize>) -> (r: Option<Algorithm>)
    ensures
        r == chosen(*a, *p, value),
{
    let mut result: Option<Algorithm> = None;
    if a.prims {
        result = Some(Algorithm::PrimsAlgorithm);
    } else if a.growing_tree {
        if p.newest {
            result = Some(Algorithm::GrowingTree(CellSelection::Newest));
        } else if p.oldest {
            result = Some(Algorithm::GrowingTree(CellSelection::Oldest));
        } else if p.random {
            result = Some(Algorithm::GrowingTree(CellSelection::Random));
        }
        // The mixed policies need a percentage as the last field.
        if let Some(n) = value {
            if p.newest_oldest {
                result = Some(Algorithm::GrowingTree(CellSelection::NewestOldest(n)));
            } else if p.newest_random {
                result = Some(Algorithm::GrowingTree(CellSelection::NewestRandom(n)));
            } else if p.oldest_random {
                result = Some(Algorithm::GrowingTree(CellSelection::OldestRandom(n)));
            }
        }
    } else if a.binary_tree {
        if p.northeast {
            result = Some(Algorithm::BinaryTree(Bias::Northeast));
        } else if p.northwest {
            result = Some(Algorithm::BinaryTree(Bias::Northwest));
        } else if p.southeast {
            result = Some(Algorithm::BinaryTree(Bias::Southeast));
        } else if p.southwest {
            result = Some(Algorithm::BinaryTree(Bias::Southwest));
        }
    } else if a.sidewinder {
        if p.horizontal {
            result = Some(Algorithm::SidewinderAlgorithm(Scan::Horizontal));
        } else if p.vertical {
            result = Some(Algorithm::SidewinderAlgorithm(Scan::Vertical));
        }
    } else if a.recursive_backtracking {
        result = Some(Algorithm::RecursiveBacktracking);
    } else if a.ellers {
        if p.horizontal {
            result = Some(Algorithm::EllersAlgorithm(Scan::Horizontal));
        } else if p.vertical {
            result = Some(Algorithm::EllersAlgorithm(Scan::Vertical));
        }
    } else if a.kruskals {
        result = Some(Algorithm::KruskalsAlgorithm);
    } else if a.recursive_division {
        result = Some(Algorithm::RecursiveDivision);
    } else if a.hunt_kill {
        result = Some(Algorithm::HuntKillAlgorithm);
    }
    result
}

/// The names of strategies that a field fits.
pub open spec fn name_hits(field: Seq<char>) -> NameHits {
    NameHits {
        prims: fits(field, "PrimsAlgorithm"@),
        growing_tree: fits(field, "GrowingTree"@),
        binary_tree: fits(field, "BinaryTree"@),
        sidewinder: fits(field, "SidewinderAlgorithm"@),
        recursive_backtracking: fits(field, "RecursiveBacktracking"@),
        ellers: fits(field, "EllersAlgorithm"@),
        kruskals: fits(field, "KruskalsAlgorithm"@),
        recursive_division: fits(field, "RecursiveDivision"@),
        hunt_kill: fits(field, "HuntKillAlgorithm"@),
    }
}

/// The names of parameters that a field fits.
pub open spec fn param_hits(field: Seq<char>) -> ParamHits {
    ParamHits {
        newest: fits(field, "Newest"@),
        oldest: fits(field, "Oldest"@),
        random: fits(field, "Random"@),
        newest_oldest: fits(field, "NewestOldest"@),
        newest_random: fits(field, "NewestRandom"@),
        oldest_random: fits(field, "OldestRandom"@),
        northeast: fits(field, "Northeast"@),
        northwest: fits(field, "Northwest"@),
        southeast: fits(field, "Southeast"@),
        southwest: fits(field, "Southwest"@),
        horizontal: fits(field, "Horizontal"@),
        vertical: fits(field, "Vertical"@),
    }
}

/// Whether the field is a pattern that can be matched at all.
pub open spec fn usable(field: Seq<char>) -> bool {
    regex_match(prefix_pattern(field), Seq::<char>::empty()).is_some()
}

/// The strategy that a text names.
pub open spec fn decoded(text: Seq<char>) -> Result<Algorithm, DecodeError> {
    if !in_format(text) {
        Err(DecodeError::IncorrectFormat)
    } else if !usable(head(text)) || !usable(param_of(text)) {
        Err(DecodeError::BadPattern)
    } else {
        match chosen(name_hits(head(text)), param_hits(param_of(text)), number(value_of(text))) {
            Some(algorithm) => Ok(algorithm),
            None => Err(DecodeError::ExtractFail),
        }
    }
}

/// Whether the field fits the name; a field that is no pattern fits none.
fn hit(field: &str, name: &str) -> (r: bool)
    ensures
        r == fits(field@, name@),
{
    match match_name(field, name) {
        Some(found) => found,
        None => false,
    }
}

/// Matches the field against the names of the strategies.
pub fn find_names(field: &str) -> (hits: NameHits)
    ensures
        hits == name_hits(field@),
{
    NameHits {
        prims: hit(field, "PrimsAlgorithm"),
        growing_tree: hit(field, "GrowingTree"),
        binary_tree: hit(field, "BinaryTree"),
        sidewinder: hit(field, "SidewinderAlgorithm"),
        recursive_backtracking: hit(field, "RecursiveBacktracking"),
        ellers: hit(field, "EllersAlgorithm"),
        kruskals: hit(field, "KruskalsAlgorithm"),
        recursive_division: hit(field, "RecursiveDivision"),
        hunt_kill: hit(field, "HuntKillAlgorithm"),
    }
}

/// Matches the field against the names of the parameters.
pub fn find_params(field: &str) -> (hits: ParamHits)
    ensures
        hits == param_hits(field@),
{
    ParamHits {
        newest: hit(field, "Newest"),
        oldest: hit(field, "Oldest"),
        random: hit(field, "Random"),
        newest_oldest: hit(field, "NewestOldest"),
        newest_random: hit(field, "NewestRandom"),
        oldest_random: hit(field, "OldestRandom"),
        northeast: hit(field, "Northeast"),
        northwest: hit(field, "Northwest"),
        southeast: hit(field, "Southeast"),
        southwest: hit(field, "Southwest"),
        horizontal: hit(field, "Horizontal"),
        vertical: hit(field, "Vertical"),
    }
}

/// Reads the strategy that a text names.
pub fn decode(main_str: &str) -> (r: Result<Algorithm, DecodeError>)
    ensures
        r == decoded(main_str@),
{
    let fields = match split_fields(main_str) {
        Some(fields) => fields,
        None => {
            return Err(DecodeError::IncorrectFormat);
        },
    };
    proof {
        reveal_strlit("");
        assert(""@ =~= Seq::<char>::empty());
    }
    if match_name(fields.algorithm, "").is_none() || match_name(fields.param, "").is_none() {
        return Err(DecodeError::BadPattern);
    }
    let names = find_names(fields.algorithm);
    let params = find_params(fields.param);
    let value = parse_number(fields.value);
    match choose_algorithm(&names, &params, value) {
        Some(algorithm) => Ok(algorithm),
        None => Err(DecodeError::ExtractFail),
    }
}

} // verus!
