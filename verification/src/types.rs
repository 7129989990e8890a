use vstd::prelude::*;

verus! {

/// Household type of a citizen.
#[derive(Debug, Clone, Copy, PartialEq, Eq, Hash, Structural)]
pub enum Husstandstype {
    Enlig,
    ParUdenBoern,
    ParMedBoern,
    EnligForsoerger,
}

/// Employment status of a citizen.
#[derive(Debug, Clone, Copy, PartialEq, Eq, Hash, Structural)]
pub enum Beskaeftigelsesstatus {
    Fuldtid,
    Deltid,
    Ledig,
    Aktivitetsparat,
    Sygemeldt,
}

/// Label of a household type as shown to users.
pub open spec fn husstandstype_label(h: Husstandstype) -> Seq<char> {
    match h {
        Husstandstype::Enlig => "enlig"@,
        Husstandstype::ParUdenBoern => "par_uden_boern"@,
        Husstandstype::ParMedBoern => "par_med_boern"@,
        Husstandstype::EnligForsoerger => "enlig_forsoerger"@,
    }
}

/// Label of an employment status as shown to users.
pub open spec fn beskaeftigelse_label(b: Beskaeftigelsesstatus) -> Seq<char> {
    match b {
        Beskaeftigelsesstatus::Fuldtid => "fuldtid"@,
        Beskaeftigelsesstatus::Deltid => "deltid"@,
        Beskaeftigelsesstatus::Ledig => "ledig"@,
        Beskaeftigelsesstatus::Aktivitetsparat => "aktivitetsparat"@,
        Beskaeftigelsesstatus::Sygemeldt => "sygemeldt"@,
    }
}

pub fn husstandstype_name(h: Husstandstype) -> (s: &'static str)
    ensures
        s@ == husstandstype_label(h),
{
    match h {
        Husstandstype::Enlig => "enlig",
        Husstandstype::ParUdenBoern => "par_uden_boern",
        Husstandstype::ParMedBoern => "par_med_boern",
        Husstandstype::EnligForsoerger => "enlig_forsoerger",
    }
}

pub fn beskaeftigelse_name(b: Beskaeftigelsesstatus) -> (s: &'static str)
    ensures
        s@ == beskaeftigelse_label(b),
{
    match b {
        Beskaeftigelsesstatus::Fuldtid => "fuldtid",
        Beskaeftigelsesstatus::Deltid => "deltid",
        Beskaeftigelsesstatus::Ledig => "ledig",
        Beskaeftigelsesstatus::Aktivitetsparat => "aktivitetsparat",
        Beskaeftigelsesstatus::Sygemeldt => "sygemeldt",
    }
}

/// The upper-case form of a character, as the standard library maps it.
pub uninterp spec fn char_uppercase(c: char) -> Seq<char>;

/// Calls `char::to_uppercase` and collects the characters it yields.
/// Claimed: the result is `char_uppercase(c)`, a function of `c` alone.
#[verifier::external_body]
fn char_to_uppercase(c: char) -> (s: String)
    ensures
        s@ == char_uppercase(c),
{
    c.to_uppercase().collect::<String>()
}

/// The text with its first character in upper case.
pub fn capitalize(s: &str) -> (r: String)
    ensures
        s@.len() == 0 ==> r@ == Seq::<char>::empty(),
        s@.len() > 0 ==> r@ == char_uppercase(s@[0]) + s@.skip(1),
{
    let n = s.unicode_len();
    if n == 0 {
        return String::new();
    }
    let first = s.get_char(0);
    let rest = s.substring_char(1, n);
    let mut r = char_to_uppercase(first);
    r.append(rest);
    r
}

} // verus!
