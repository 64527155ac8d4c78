//! Where the MFA serial of a profile is looked up in the shared configuration files.
use vstd::prelude::*;
use crate::text::{append_str, chars_of, matches_at};
use ini::{Ini, Properties};

verus! {

#[verifier::external_type_specification]
#[verifier::external_body]
pub struct ExIni(Ini);

#[verifier::external_type_specification]
#[verifier::external_body]
pub struct ExProperties(Properties);

/// What a parsed INI file holds, by section name: the first section of each name,
/// seen as its keys and the first value of each.
pub uninterp spec fn ini_sections(conf: Ini) -> Map<Seq<char>, Map<Seq<char>, Seq<char>>>;

/// What a section of a parsed INI file holds: its keys and the first value of each.
pub uninterp spec fn properties_of(section: Properties) -> Map<Seq<char>, Seq<char>>;

/// Relies on `Ini::section`: the first section named `name`, if any.
#[verifier::external_body]
fn section_named<'a>(conf: &'a Ini, name: &str) -> (r: Option<&'a Properties>)
    ensures
        r is Some <==> ini_sections(*conf).contains_key(name@),
        r matches Some(p) ==> properties_of(*p) == ini_sections(*conf)[name@],
{
    conf.section(Some(name))
}

/// Relies on `Properties::get`: the first value of `key` in the section, if any.
#[verifier::external_body]
fn property_value(section: &Properties, key: &str) -> (r: Option<String>)
    ensures
        r is Some <==> properties_of(*section).contains_key(key@),
        r matches Some(v) ==> v@ == properties_of(*section)[key@],
{
    section.get(key).map(str::to_string)
}

/// The names of the sections that may hold the MFA serial of `profile`, in the
/// order they are tried: the config-file form `profile {name}` (for `default`,
/// the bare `default` first), then the credentials-file form `{name}`.
pub open spec fn mfa_sections(profile: Seq<char>) -> Seq<Seq<char>> {
    if profile == "default"@ {
        seq!["default"@, "profile "@ + profile, "default"@]
    } else {
        seq!["profile "@ + profile, profile]
    }
}

/// The names of the sections that may hold the MFA serial of `profile`, in the
/// order they are tried.
pub fn mfa_section_names(profile: &str) -> (r: Vec<String>)
    ensures
        r@.map_values(|s: String| s@) == mfa_sections(profile@),
{
    let mut prefixed = "profile ".to_owned();
    append_str(&mut prefixed, profile);
    let mut r: Vec<String> = Vec::new();
    let name = chars_of(profile);
    let default_name = chars_of("default");
    let is_default = name.len() == default_name.len() && matches_at(&name, &default_name, 0);
    proof {
        if name.len() == default_name.len() {
            assert(name@.subrange(0, default_name@.len() as int) =~= name@);
        }
    }
    if is_default {
        r.push("default".to_owned());
        r.push(prefixed);
        r.push("default".to_owned());
        assert(profile@ == "default"@);
        assert(r@.map_values(|s: String| s@) =~= mfa_sections(profile@));
    } else {
        r.push(prefixed);
        r.push(profile.to_owned());
        assert(profile@ != "default"@);
        assert(r@.map_values(|s: String| s@) =~= mfa_sections(profile@));
    }
    r
}

/// The first value of `key` among the sections named by `names`, tried in order.
pub open spec fn first_value(
    sections: Map<Seq<char>, Map<Seq<char>, Seq<char>>>,
    names: Seq<Seq<char>>,
    key: Seq<char>,
) -> Option<Seq<char>>
    decreases names.len(),
{
    if names.len() == 0 {
        None
    } else if sections.contains_key(names[0]) && sections[names[0]].contains_key(key) {
        Some(sections[names[0]][key])
    } else {
        first_value(sections, names.skip(1), key)
    }
}

/// The MFA serial that `conf` records for `profile`: the `mfa_serial` of the first
/// section among `mfa_sections(profile)` that has one.
pub fn mfa_serial_in(conf: &Ini, profile: &str) -> (r: Option<String>)
    ensures
        match r {
            Some(v) => first_value(ini_sections(*conf), mfa_sections(profile@), "mfa_serial"@)
                == Some(v@),
            None => first_value(ini_sections(*conf), mfa_sections(profile@), "mfa_serial"@)
                is None,
        },
{
    let names = mfa_section_names(profile);
    let ghost views = names@.map_values(|s: String| s@);
    let ghost sections = ini_sections(*conf);
    let ghost key = "mfa_serial"@;
    let mut k: usize = 0;
    assert(views.skip(0) =~= views);
    while k < names.len()
        invariant
            k <= names.len(),
            views == names@.map_values(|s: String| s@),
            views == mfa_sections(profile@),
            sections == ini_sections(*conf),
            key == "mfa_serial"@,
            first_value(sections, views, key) == first_value(sections, views.skip(k as int), key),
        decreases names.len() - k,
    {
        let ghost rest = views.skip(k as int);
        assert(rest[0] == names@[k as int]@);
        assert(rest.skip(1) =~= views.skip(k + 1));
        match section_named(conf, names[k].as_str()) {
            Some(section) => match property_value(section, "mfa_serial") {
                Some(v) => {
                    return Some(v);
                },
                None => {},
            },
            None => {},
        }
        k += 1;
    }
    assert(views.skip(k as int) =~= Seq::<Seq<char>>::empty());
    None
}

} // verus!
