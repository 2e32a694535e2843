use vstd::prelude::*;
use vstd::std_specs::iter::IteratorSpec;

verus! {

pub const MIN_CITY_NAME_LEN: usize = 1;

pub const MAX_CITY_NAME_LEN: usize = 32;

/// How many names `get_cities` draws at most before it gives up.
pub const MAX_DRAWS: u64 = 4294967296;

pub open spec fn is_alphanumeric(b: u8) -> bool {
    (48 <= b <= 57) || (65 <= b <= 90) || (97 <= b <= 122)
}

/// A name that the generator may produce: 1 to 32 ASCII letters and digits.
pub open spec fn valid_city_name(s: Seq<char>) -> bool {
    &&& MIN_CITY_NAME_LEN <= s.len() <= MAX_CITY_NAME_LEN
    &&& forall|i: int| 0 <= i < s.len() ==> is_alphanumeric(#[trigger] s[i] as u8) && (s[i] as u32) < 128
}

/// Relies on rand's `Rng::gen_range` on `thread_rng()`: a number drawn from
/// `lo..=hi`, which must not be empty.
#[verifier::external_body]
fn random_in(lo: usize, hi: usize) -> (r: usize)
    requires
        lo <= hi,
    ensures
        lo <= r <= hi,
{
    rand::Rng::gen_range(&mut rand::thread_rng(), lo..=hi)
}

/// Relies on rand's `Alphanumeric` distribution, sampled from `thread_rng()`:
/// one of the 62 ASCII letters and digits.
#[verifier::external_body]
fn random_alphanumeric() -> (r: u8)
    ensures
        is_alphanumeric(r),
{
    rand::Rng::sample(&mut rand::thread_rng(), rand::distributions::Alphanumeric)
}

/// Relies on `String::from_utf8`: ASCII bytes are valid UTF-8, one character
/// for each byte.
#[verifier::external_body]
fn ascii_to_string(b: Vec<u8>) -> (r: String)
    requires
        forall|i: int| 0 <= i < b@.len() ==> b@[i] < 128,
    ensures
        r@.len() == b@.len(),
        forall|i: int| 0 <= i < b@.len() ==> r@[i] == b@[i] as char,
{
    String::from_utf8(b).unwrap()
}

/// A random name of 1 to 32 ASCII letters and digits, as bytes.
fn get_city_name_bytes() -> (r: Vec<u8>)
    ensures
        MIN_CITY_NAME_LEN <= r@.len() <= MAX_CITY_NAME_LEN,
        forall|i: int| 0 <= i < r@.len() ==> is_alphanumeric(#[trigger] r@[i]),
{
    let len = random_in(MIN_CITY_NAME_LEN, MAX_CITY_NAME_LEN);
    let mut name: Vec<u8> = Vec::new();
    while name.len() < len
        invariant
            name@.len() <= len,
            forall|i: int| 0 <= i < name@.len() ==> is_alphanumeric(#[trigger] name@[i]),
        decreases len - name@.len(),
    {
        name.push(random_alphanumeric());
    }
    name
}

/// A random city name of 1 to 32 ASCII letters and digits.
pub fn get_city_name() -> (r: String)
    ensures
        valid_city_name(r@),
{
    let b = get_city_name_bytes();
    let r = ascii_to_string(b);
    r
}

/// Whether `name` holds the delimiter character.
pub fn has_delimiter_char(name: &String) -> (r: bool)
    ensures
        r == exists|k: int| 0 <= k < name@.len() && name@[k] == ';',
{
    broadcast use vstd::string::axiom_spec_iter, vstd::string::next_postcondition;

    let ghost full = name@;
    let mut it = name.as_str().chars();
    let mut done = false;
    let mut found = false;
    let ghost mut idx: int = 0;
    assert(full.subrange(0, full.len() as int) =~= full);
    while !done
        invariant
            0 <= idx <= full.len(),
            full == name@,
            it.obeys_prophetic_iter_laws(),
            done ==> idx == full.len() || found,
            !done ==> it.remaining() == full.subrange(idx, full.len() as int),
            found == exists|k: int| 0 <= k < idx && full[k] == ';',
            found ==> done,
        decreases full.len() - idx + (if done { 0int } else { 1int }),
    {
        match it.next() {
            Some(c) => {
                assert(full.subrange(idx, full.len() as int)[0] == full[idx]);
                assert(full.subrange(idx, full.len() as int).drop_first() =~= full.subrange(
                    idx + 1,
                    full.len() as int,
                ));
                proof {
                    idx = idx + 1;
                }
                if c == ';' {
                    found = true;
                    done = true;
                }
            },
            None => {
                done = true;
            },
        }
    }
    found
}

/// Adds `name` to `cities` when it holds no delimiter and is not there yet;
/// says whether it was added.
pub fn add_city(cities: &mut Vec<String>, name: String) -> (added: bool)
    ensures
        added == (!(exists|k: int| 0 <= k < name@.len() && name@[k] == ';') && forall|i: int|
            0 <= i < old(cities)@.len() ==> old(cities)@[i]@ != name@),
        final(cities)@ == if added {
            old(cities)@.push(name)
        } else {
            old(cities)@
        },
{
    if has_delimiter_char(&name) {
        return false;
    }
    let mut i: usize = 0;
    while i < cities.len()
        invariant
            cities@ == old(cities)@,
            i <= cities@.len(),
            forall|j: int| 0 <= j < i ==> cities@[j]@ != name@,
        decreases cities.len() - i,
    {
        if cities[i] == name {
            return false;
        }
        i = i + 1;
    }
    cities.push(name);
    true
}

/// Draws `nof_cities` distinct random city names, none holding the
/// delimiter. A name drawn twice is drawn again; after `MAX_DRAWS` draws in
/// all the names found so far are returned.
pub fn get_cities(nof_cities: u32) -> (r: Vec<String>)
    ensures
        r@.len() <= nof_cities,
        forall|i: int| 0 <= i < r@.len() ==> valid_city_name(#[trigger] r@[i]@),
        forall|i: int, j: int| 0 <= i < j < r@.len() ==> r@[i]@ != r@[j]@,
        forall|i: int, k: int| 0 <= i < r@.len() && 0 <= k < r@[i]@.len() ==> r@[i]@[k] != ';',
{
    let mut cities: Vec<String> = Vec::new();
    let mut draws: u64 = 0;
    while cities.len() < nof_cities as usize && draws < MAX_DRAWS
        invariant
            cities@.len() <= nof_cities,
            forall|i: int| 0 <= i < cities@.len() ==> valid_city_name(#[trigger] cities@[i]@),
            forall|i: int, j: int| 0 <= i < j < cities@.len() ==> cities@[i]@ != cities@[j]@,
        decreases MAX_DRAWS - draws,
    {
        draws = draws + 1;
        let name = get_city_name();
        let ghost before = cities@;
        let ghost n = name@;
        add_city(&mut cities, name);
        proof {
            assert forall|i: int, j: int| 0 <= i < j < cities@.len() implies cities@[i]@ != cities@[j]@ by {
                if j == before.len() {
                    assert(cities@[j]@ == n);
                    assert(cities@[i] == before[i]);
                }
            }
        }
    }
    proof {
        assert forall|i: int, k: int| 0 <= i < cities@.len() && 0 <= k < cities@[i]@.len() implies cities@[i]@[k]
            != ';' by {
            assert(valid_city_name(cities@[i]@));
            assert(is_alphanumeric(cities@[i]@[k] as u8));
        }
    }
    cities
}

} // verus!
