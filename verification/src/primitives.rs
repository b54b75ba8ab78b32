//! Primitive value cells: small wrappers around plain values, as the
//! memoization substrate stores them, with their canonical constructors.

use vstd::prelude::*;

verus! {

/// A cell holding a string value.
pub struct StringVc {
    pub value: std::string::String,
}

impl StringVc {
    /// The empty string cell.
    pub fn empty() -> (r: Self)
        ensures
            r.value@ == Seq::<char>::empty(),
    {
        proof {
            reveal_strlit("");
        }
        StringVc { value: std::string::String::from_str("") }
    }
}

/// A string value.
pub struct String(pub std::string::String);

/// An optional 16-bit value.
pub struct OptionU16(pub Option<u16>);

/// A 32-bit value.
pub struct U32(pub u32);

/// A 64-bit value.
pub struct U64(pub u64);

/// The digit character for one decimal digit.
pub open spec fn digit_char(d: u64) -> char {
    if d == 0 {
        '0'
    } else if d == 1 {
        '1'
    } else if d == 2 {
        '2'
    } else if d == 3 {
        '3'
    } else if d == 4 {
        '4'
    } else if d == 5 {
        '5'
    } else if d == 6 {
        '6'
    } else if d == 7 {
        '7'
    } else if d == 8 {
        '8'
    } else {
        '9'
    }
}

/// The decimal representation of `n`, most significant digit first, without
/// leading zeros (zero itself prints as one digit).
pub open spec fn decimal_digits(n: u64) -> Seq<char>
    decreases n,
{
    if n < 10 {
        seq![digit_char(n)]
    } else {
        decimal_digits(n / 10).push(digit_char(n % 10))
    }
}

/// The one-character string for a decimal digit.
fn digit_str(d: u64) -> (r: &'static str)
    requires
        d < 10,
    ensures
        r@ == seq![digit_char(d)],
{
    proof {
        reveal_strlit("0");
        reveal_strlit("1");
        reveal_strlit("2");
        reveal_strlit("3");
        reveal_strlit("4");
        reveal_strlit("5");
        reveal_strlit("6");
        reveal_strlit("7");
        reveal_strlit("8");
        reveal_strlit("9");
    }
    match d {
        0 => "0",
        1 => "1",
        2 => "2",
        3 => "3",
        4 => "4",
        5 => "5",
        6 => "6",
        7 => "7",
        8 => "8",
        _ => "9",
    }
}

/// Appends the decimal representation of `n` to `out`.
fn push_decimal(n: u64, out: &mut std::string::String)
    ensures
        final(out)@ == old(out)@ + decimal_digits(n),
    decreases n,
{
    if n >= 10 {
        proof {
            vstd::arithmetic::div_mod::lemma_div_decreases(n as int, 10);
        }
        push_decimal(n / 10, out);
    }
    out.append(digit_str(n % 10));
    proof {
        assert(out@ =~= old(out)@ + decimal_digits(n));
    }
}

impl U64 {
    /// The decimal text of the value.
    pub fn to_string(&self) -> (r: StringVc)
        ensures
            r.value@ == decimal_digits(self.0),
    {
        let mut s = std::string::String::new();
        push_decimal(self.0, &mut s);
        proof {
            assert(s@ =~= decimal_digits(self.0));
        }
        StringVc { value: s }
    }
}

/// An optional string value.
pub struct OptionString(pub Option<std::string::String>);

/// A cell holding an optional string value.
pub struct OptionStringVc {
    pub value: Option<std::string::String>,
}

impl OptionStringVc {
    /// The absent-string cell.
    pub fn none() -> (r: Self)
        ensures
            r.value is None,
    {
        OptionStringVc { value: None }
    }
}

impl Default for OptionStringVc {
    fn default() -> (r: Self)
        ensures
            r.value is None,
    {
        Self::none()
    }
}

/// A list of strings.
pub struct Strings(pub Vec<std::string::String>);

/// A cell holding a list of strings.
pub struct StringsVc {
    pub value: Vec<std::string::String>,
}

impl StringsVc {
    /// The empty list cell.
    pub fn empty() -> (r: Self)
        ensures
            r.value@.len() == 0,
    {
        StringsVc { value: Vec::new() }
    }
}

/// A boolean value.
pub struct Bool(pub bool);

/// A list of boolean values.
pub struct Bools(pub Vec<bool>);

/// A cell holding one boolean value.
#[derive(Clone, Copy, PartialEq, Eq, Structural, Debug)]
pub struct BoolVc {
    pub value: bool,
}

/// A list of boolean cells.
pub struct BoolVcs(pub Vec<BoolVc>);

/// A cell holding a list of boolean cells.
pub struct BoolVcsVc {
    pub value: Vec<BoolVc>,
}

/// A cell holding a list of booleans.
pub struct BoolsVc {
    pub value: Vec<bool>,
}

impl BoolVcsVc {
    /// The empty list cell.
    pub fn empty() -> (r: Self)
        ensures
            r.value@.len() == 0,
    {
        BoolVcsVc { value: Vec::new() }
    }

    /// Resolves every boolean cell of the list into its value.
    pub fn into_bools(&self) -> (r: BoolsVc)
        ensures
            r.value@.len() == self.value@.len(),
            forall|j: int|
                0 <= j < r.value@.len() ==> r.value@[j] == (#[trigger] self.value@[j]).value,
    {
        let mut bools: Vec<bool> = Vec::new();
        let mut i: usize = 0;
        while i < self.value.len()
            invariant
                i <= self.value@.len(),
                bools@.len() == i,
                forall|j: int|
                    0 <= j < i ==> bools@[j] == (#[trigger] self.value@[j]).value,
            decreases self.value@.len() - i,
        {
            bools.push(self.value[i].value);
            i += 1;
        }
        BoolsVc { value: bools }
    }

    /// Whether every boolean cell of the list holds true.
    pub fn all(&self) -> (r: BoolVc)
        ensures
            r.value == (forall|j: int|
                0 <= j < self.value@.len() ==> (#[trigger] self.value@[j]).value),
    {
        let bools = self.into_bools();
        let mut i: usize = 0;
        while i < bools.value.len()
            invariant
                i <= bools.value@.len(),
                bools.value@.len() == self.value@.len(),
                forall|j: int|
                    0 <= j < bools.value@.len() ==> bools.value@[j] == (
                    #[trigger] self.value@[j]).value,
                forall|j: int| 0 <= j < i ==> (#[trigger] self.value@[j]).value,
            decreases bools.value@.len() - i,
        {
            if !bools.value[i] {
                proof {
                    assert(!(self.value@[i as int].value));
                }
                return BoolVc { value: false };
            }
            i += 1;
        }
        BoolVc { value: true }
    }

    /// Whether any boolean cell of the list holds true.
    pub fn any(&self) -> (r: BoolVc)
        ensures
            r.value == (exists|j: int|
                0 <= j < self.value@.len() && (#[trigger] self.value@[j]).value),
    {
        let bools = self.into_bools();
        let mut i: usize = 0;
        while i < bools.value.len()
            invariant
                i <= bools.value@.len(),
                bools.value@.len() == self.value@.len(),
                forall|j: int|
                    0 <= j < bools.value@.len() ==> bools.value@[j] == (
                    #[trigger] self.value@[j]).value,
                forall|j: int| 0 <= j < i ==> !(#[trigger] self.value@[j]).value,
            decreases bools.value@.len() - i,
        {
            if bools.value[i] {
                proof {
                    assert(self.value@[i as int].value);
                }
                return BoolVc { value: true };
            }
            i += 1;
        }
        BoolVc { value: false }
    }
}

/// A machine-word value.
pub struct Usize(pub usize);

#[verifier::external_type_specification]
#[verifier::external_body]
pub struct ExJsonValue(serde_json::Value);

/// The canonical JSON text of a value; determined by the value alone.
pub uninterp spec fn json_text(v: serde_json::Value) -> Seq<char>;

/// Relies on serde_json's `Value::to_string` (through `Display`): serializes
/// the value to its compact JSON text, a function of the value alone.
#[verifier::external_body]
fn json_value_to_string(v: &serde_json::Value) -> (r: std::string::String)
    ensures
        r@ == json_text(*v),
{
    v.to_string()
}

/// A JSON value.
pub struct JsonValue(pub serde_json::Value);

impl JsonValue {
    /// The compact JSON text of the contained value.
    pub fn to_string(&self) -> (r: StringVc)
        ensures
            r.value@ == json_text(self.0),
    {
        StringVc { value: json_value_to_string(&self.0) }
    }
}

#[verifier::external_type_specification]
#[verifier::external_body]
pub struct ExRegex(regex::Regex);

/// The pattern string a regular expression was compiled from; determined by
/// the expression alone.
pub uninterp spec fn regex_source(re: regex::Regex) -> Seq<char>;

/// Relies on regex's `Regex::as_str`: returns exactly the pattern string the
/// expression was compiled from.
#[verifier::external_body]
fn regex_pattern(re: &regex::Regex) -> (r: std::string::String)
    ensures
        r@ == regex_source(*re),
{
    re.as_str().to_string()
}

/// A compiled regular expression. Compiled expressions carry no equality of
/// their own, so two of them count as equal exactly when they were compiled
/// from the same pattern string.
pub struct RegexValue(pub regex::Regex);

impl PartialEq for RegexValue {
    fn eq(&self, other: &RegexValue) -> (r: bool) {
        regex_pattern(&self.0) == regex_pattern(&other.0)
    }
}

impl vstd::std_specs::cmp::PartialEqSpecImpl for RegexValue {
    open spec fn obeys_eq_spec() -> bool {
        true
    }

    open spec fn eq_spec(&self, other: &RegexValue) -> bool {
        regex_source(self.0) == regex_source(other.0)
    }
}

impl Eq for RegexValue {}

} // verus!
