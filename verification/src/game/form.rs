//! The form for a new world.

use crate::game::text::{number_of, parse_number, trim_text, without_margins};
use crate::world::hash::{spec_splitmix64, splitmix64};
use vstd::prelude::*;

verus! {

/// What a form asks for.
#[derive(Debug, PartialEq, Eq)]
pub enum FormOutcome {
    /// The name is missing.
    NoName,
    /// The seed is not a number.
    BadSeed,
    /// A world with a fresh seed.
    FreshSeed { name: String },
    /// A world with the given seed.
    GivenSeed { name: String, seed: u64 },
}

/// Whether an outcome is that of a name and a seed without white space around them.
pub open spec fn is_outcome(name: Seq<char>, seed: Seq<char>, outcome: FormOutcome) -> bool {
    if name.len() == 0 {
        outcome is NoName
    } else if seed.len() == 0 {
        outcome matches FormOutcome::FreshSeed { name: n } && n@ == name
    } else {
        match number_of(seed) {
            Some(number) => outcome matches FormOutcome::GivenSeed { name: n, seed: s } && n@
                == name && s == number,
            None => outcome is BadSeed,
        }
    }
}

/// What a name and a seed without white space around them ask for.
pub fn form_outcome(name: String, seed: String) -> (r: FormOutcome)
    ensures
        is_outcome(name@, seed@, r),
{
    if name.as_str().is_empty() {
        return FormOutcome::NoName;
    }
    if seed.as_str().is_empty() {
        return FormOutcome::FreshSeed { name };
    }
    match parse_number(seed.as_str()) {
        Some(number) => FormOutcome::GivenSeed { name, seed: number },
        None => FormOutcome::BadSeed,
    }
}

/// What the form asks for. White space around the name and the seed does not count.
pub fn submit_form(name: &str, seed: &str) -> (r: FormOutcome)
    ensures
        is_outcome(without_margins(name@), without_margins(seed@), r),
{
    form_outcome(trim_text(name), trim_text(seed))
}

/// What the player is told.
pub fn form_message(outcome: &FormOutcome) -> (r: Option<&'static str>)
    ensures
        r == (match *outcome {
            FormOutcome::NoName => Some("世界名称不能为空"),
            FormOutcome::BadSeed => Some("世界种子必须是非负整数"),
            _ => None,
        }),
{
    match outcome {
        FormOutcome::NoName => Some("世界名称不能为空"),
        FormOutcome::BadSeed => Some("世界种子必须是非负整数"),
        _ => None,
    }
}

/// A fresh seed from the time in nanoseconds: times that are close give seeds that are
/// not.
pub fn seed_from_time(nanos: u64) -> (r: u64)
    ensures
        r == spec_splitmix64(nanos),
{
    splitmix64(nanos)
}

/// The bits of a number scattered, as a fraction of one in units of 2^-53.
pub open spec fn spec_scatter(value: u64) -> u64 {
    let a = (value ^ (value >> 33)).wrapping_mul(0xff51_afd7_ed55_8ccd);
    let b = (a ^ (a >> 33)).wrapping_mul(0xc4ce_b9fe_1a85_ec53);
    (b ^ (b >> 33)) >> 11
}

/// The bits of a number scattered, as a fraction of one in units of 2^-53.
pub fn scatter(value: u64) -> (r: u64)
    ensures
        r == spec_scatter(value),
        r < 0x20_0000_0000_0000,
{
    let a: u64 = (value ^ (value >> 33)).wrapping_mul(0xff51_afd7_ed55_8ccd);
    let b: u64 = (a ^ (a >> 33)).wrapping_mul(0xc4ce_b9fe_1a85_ec53);
    let c: u64 = b ^ (b >> 33);
    assert(c >> 11 < 0x20_0000_0000_0000) by (bit_vector);
    c >> 11
}

/// A world needs a name and may have a seed: without a name there is none, without a seed it
/// gets a fresh one, and a seed that is given counts if it is a number.
pub proof fn worlds_need_a_name(name: Seq<char>, seed: Seq<char>, outcome: FormOutcome)
    requires
        is_outcome(name, seed, outcome),
    ensures
        outcome is NoName <==> name.len() == 0,
        outcome is FreshSeed <==> name.len() > 0 && seed.len() == 0,
        outcome is GivenSeed <==> name.len() > 0 && seed.len() > 0 && number_of(seed) is Some,
        outcome is BadSeed <==> name.len() > 0 && seed.len() > 0 && number_of(seed) is None,
        outcome matches FormOutcome::FreshSeed { name: n } ==> n@ == name,
        outcome matches FormOutcome::GivenSeed { name: n, seed: s } ==> n@ == name && Some(s)
            == number_of(seed),
{
}

} // verus!
