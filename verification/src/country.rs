use vstd::prelude::*;
use vstd::string::StrSliceExecFns;
use crate::normalize::push_char;

verus! {

/// A country record as the external data source hands it over: plain strings
/// for every name and code, the numeric country code, and an optional list of
/// alias spellings.
pub struct CountryRef {
    pub aliases: Option<Vec<String>>,
    pub alpha2: String,
    pub alpha3: String,
    pub fifa: String,
    pub ioc: String,
    pub iso_name: String,
    pub numeric: i32,
    pub official: String,
    pub short: String,
    pub emoji: String,
    pub shortcode: String,
}

/// An owned country record: the code fields are fixed-width character arrays,
/// right-padded with spaces, so decoding them back to text cannot fail.
pub struct Country {
    pub aliases: Option<Vec<String>>,
    pub alpha2: [char; 2],
    pub alpha3: [char; 3],
    pub fifa: [char; 3],
    pub ioc: [char; 3],
    pub iso_name: String,
    pub numeric: i32,
    pub official: String,
    pub short: String,
    pub emoji: char,
    pub shortcode: String,
}

/// The first `n` characters of `s`, right-padded with spaces to width `n`.
pub open spec fn pad_to(s: Seq<char>, n: int) -> Seq<char> {
    Seq::new(n as nat, |i: int| if i < s.len() { s[i] } else { ' ' })
}

/// The first character of `s`, or a space if `s` is empty.
pub open spec fn first_or_space(s: Seq<char>) -> char {
    if s.len() == 0 {
        ' '
    } else {
        s[0]
    }
}

/// How an owned record relates to the source record it was taken from.
pub open spec fn country_matches(c: Country, r: CountryRef) -> bool {
    &&& c.alpha2@ == pad_to(r.alpha2@, 2)
    &&& c.alpha3@ == pad_to(r.alpha3@, 3)
    &&& c.fifa@ == pad_to(r.fifa@, 3)
    &&& c.ioc@ == pad_to(r.ioc@, 3)
    &&& c.iso_name@ == r.iso_name@
    &&& c.numeric == r.numeric
    &&& c.official@ == r.official@
    &&& c.short@ == r.short@
    &&& c.emoji == first_or_space(r.emoji@)
    &&& c.shortcode@ == r.shortcode@
    &&& match (c.aliases, r.aliases) {
        (None, None) => true,
        (Some(ca), Some(ra)) => ca.deep_view() == ra.deep_view(),
        _ => false,
    }
}

/// The character of `s` at `i`, or a space when `s` is too short.
fn char_at_or_space(s: &str, i: usize) -> (c: char)
    ensures
        c == if i < s@.len() {
            s@[i as int]
        } else {
            ' '
        },
{
    if i < s.unicode_len() {
        s.get_char(i)
    } else {
        ' '
    }
}

impl CountryRef {
    /// The owned form of this record: code fields become fixed-width
    /// space-padded character arrays, the emoji keeps its first character.
    pub fn to_owned(&self) -> (r: Country)
        ensures
            country_matches(r, *self),
    {
        let a2 = [char_at_or_space(self.alpha2.as_str(), 0), char_at_or_space(
            self.alpha2.as_str(),
            1,
        )];
        let a3 = [char_at_or_space(self.alpha3.as_str(), 0), char_at_or_space(
            self.alpha3.as_str(),
            1,
        ), char_at_or_space(self.alpha3.as_str(), 2)];
        let ff = [char_at_or_space(self.fifa.as_str(), 0), char_at_or_space(self.fifa.as_str(), 1), char_at_or_space(
            self.fifa.as_str(),
            2,
        )];
        let io = [char_at_or_space(self.ioc.as_str(), 0), char_at_or_space(self.ioc.as_str(), 1), char_at_or_space(
            self.ioc.as_str(),
            2,
        )];
        proof {
            assert(a2@ =~= pad_to(self.alpha2@, 2));
            assert(a3@ =~= pad_to(self.alpha3@, 3));
            assert(ff@ =~= pad_to(self.fifa@, 3));
            assert(io@ =~= pad_to(self.ioc@, 3));
        }
        let aliases: Option<Vec<String>> = match &self.aliases {
            None => None,
            Some(v) => {
                let mut out: Vec<String> = Vec::new();
                let mut i: usize = 0;
                while i < v.len()
                    invariant
                        i <= v@.len(),
                        out@.len() == i,
                        forall|k: int| 0 <= k < i ==> out@[k] == v@[k],
                    decreases v@.len() - i,
                {
                    out.push(v[i].clone());
                    i = i + 1;
                }
                proof {
                    assert(out@ =~= v@);
                }
                Some(out)
            },
        };
        let emoji = char_at_or_space(self.emoji.as_str(), 0);
        Country {
            aliases,
            alpha2: a2,
            alpha3: a3,
            fifa: ff,
            ioc: io,
            iso_name: self.iso_name.clone(),
            numeric: self.numeric,
            official: self.official.clone(),
            short: self.short.clone(),
            emoji,
            shortcode: self.shortcode.clone(),
        }
    }
}

impl Country {
    /// The alpha-2 code, decoded back to text.
    pub fn alpha2(&self) -> (r: String)
        ensures
            r@ == self.alpha2@,
    {
        let mut s = String::new();
        push_char(&mut s, self.alpha2[0]);
        push_char(&mut s, self.alpha2[1]);
        proof {
            assert(s@ =~= self.alpha2@);
        }
        s
    }

    /// The alpha-3 code, decoded back to text.
    pub fn alpha3(&self) -> (r: String)
        ensures
            r@ == self.alpha3@,
    {
        let mut s = String::new();
        push_char(&mut s, self.alpha3[0]);
        push_char(&mut s, self.alpha3[1]);
        push_char(&mut s, self.alpha3[2]);
        proof {
            assert(s@ =~= self.alpha3@);
        }
        s
    }

    /// The FIFA code, decoded back to text.
    pub fn fifa(&self) -> (r: String)
        ensures
            r@ == self.fifa@,
    {
        let mut s = String::new();
        push_char(&mut s, self.fifa[0]);
        push_char(&mut s, self.fifa[1]);
        push_char(&mut s, self.fifa[2]);
        proof {
            assert(s@ =~= self.fifa@);
        }
        s
    }

    /// The IOC code, decoded back to text.
    pub fn ioc(&self) -> (r: String)
        ensures
            r@ == self.ioc@,
    {
        let mut s = String::new();
        push_char(&mut s, self.ioc[0]);
        push_char(&mut s, self.ioc[1]);
        push_char(&mut s, self.ioc[2]);
        proof {
            assert(s@ =~= self.ioc@);
        }
        s
    }
}

/// Two records are the same country exactly when their numeric codes match.
impl PartialEq for Country {
    fn eq(&self, other: &Self) -> (r: bool) {
        self.numeric == other.numeric
    }
}

impl vstd::std_specs::cmp::PartialEqSpecImpl for Country {
    open spec fn obeys_eq_spec() -> bool {
        true
    }

    open spec fn eq_spec(&self, other: &Self) -> bool {
        self.numeric == other.numeric
    }
}

impl Eq for Country {

}

/// Lexicographic order of two three-character codes.
pub open spec fn cmp3_spec(a: Seq<char>, b: Seq<char>) -> core::cmp::Ordering {
    if a[0] as u32 != b[0] as u32 {
        if (a[0] as u32) < (b[0] as u32) {
            core::cmp::Ordering::Less
        } else {
            core::cmp::Ordering::Greater
        }
    } else if a[1] as u32 != b[1] as u32 {
        if (a[1] as u32) < (b[1] as u32) {
            core::cmp::Ordering::Less
        } else {
            core::cmp::Ordering::Greater
        }
    } else if a[2] as u32 != b[2] as u32 {
        if (a[2] as u32) < (b[2] as u32) {
            core::cmp::Ordering::Less
        } else {
            core::cmp::Ordering::Greater
        }
    } else {
        core::cmp::Ordering::Equal
    }
}

/// Records are ordered by their alpha-3 code, not by numeric code.
impl PartialOrd for Country {
    fn partial_cmp(&self, other: &Self) -> (r: Option<core::cmp::Ordering>) {
        let a0: u32 = self.alpha3[0] as u32;
        let b0: u32 = other.alpha3[0] as u32;
        let a1: u32 = self.alpha3[1] as u32;
        let b1: u32 = other.alpha3[1] as u32;
        let a2: u32 = self.alpha3[2] as u32;
        let b2: u32 = other.alpha3[2] as u32;
        if a0 != b0 {
            if a0 < b0 {
                Some(core::cmp::Ordering::Less)
            } else {
                Some(core::cmp::Ordering::Greater)
            }
        } else if a1 != b1 {
            if a1 < b1 {
                Some(core::cmp::Ordering::Less)
            } else {
                Some(core::cmp::Ordering::Greater)
            }
        } else if a2 != b2 {
            if a2 < b2 {
                Some(core::cmp::Ordering::Less)
            } else {
                Some(core::cmp::Ordering::Greater)
            }
        } else {
            Some(core::cmp::Ordering::Equal)
        }
    }
}

impl vstd::std_specs::cmp::PartialOrdSpecImpl for Country {
    open spec fn obeys_partial_cmp_spec() -> bool {
        true
    }

    open spec fn partial_cmp_spec(&self, other: &Self) -> Option<core::cmp::Ordering> {
        Some(cmp3_spec(self.alpha3@, other.alpha3@))
    }
}

} // verus!
