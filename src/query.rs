//! The four completion queries served over a built index: cities of a
//! country, postal codes of a city, streets of a postal area and house
//! numbers of a street, each filtered by a case-insensitive prefix and
//! bounded in length.
use vstd::prelude::*;
use crate::compress::{prefixed, World};
use crate::sorted_vec::views;
use crate::text::{digits_value, is_digit};
use vstd::string::*;
use vstd::utf8::*;

verus! {

/// The level of the path at which a query found nothing.
#[derive(PartialEq, Eq, Structural, Clone, Copy, Debug)]
pub enum Missing {
    Country,
    City,
    Zip,
    Street,
}

/// At most the first `n` elements.
pub open spec fn first_n(s: Seq<Seq<char>>, n: usize) -> Seq<Seq<char>> {
    if s.len() <= n {
        s
    } else {
        s.take(n as int)
    }
}

/// A query result as values.
pub open spec fn answer_view(r: Result<Vec<String>, Missing>) -> Result<Seq<Seq<char>>, Missing> {
    match r {
        Ok(v) => Ok(views(v@)),
        Err(m) => Err(m),
    }
}

/// What the city query answers.
pub open spec fn cities_answer(w: World, cc: Seq<char>, prefix: Seq<char>, max_items: usize) -> Result<Seq<Seq<char>>, Missing> {
    match w.country_named(cc) {
        None => Err(Missing::Country),
        Some(c) => Ok(first_n(prefixed(c.city_names(), prefix), max_items)),
    }
}

/// What the postal code query answers.
pub open spec fn zips_answer(w: World, cc: Seq<char>, ci: Seq<char>, prefix: Seq<char>, max_items: usize) -> Result<Seq<Seq<char>>, Missing> {
    match w.country_named(cc) {
        None => Err(Missing::Country),
        Some(c) => match c.city_named(ci) {
            None => Err(Missing::City),
            Some(x) => Ok(first_n(prefixed(x.zip_codes(), prefix), max_items)),
        },
    }
}

/// What the street query answers.
pub open spec fn streets_answer(w: World, cc: Seq<char>, ci: Seq<char>, zip: Seq<char>, prefix: Seq<char>, max_items: usize) -> Result<
    Seq<Seq<char>>,
    Missing,
> {
    match w.country_named(cc) {
        None => Err(Missing::Country),
        Some(c) => match c.city_named(ci) {
            None => Err(Missing::City),
            Some(x) => match x.area_named(zip) {
                None => Err(Missing::Zip),
                Some(a) => Ok(first_n(prefixed(a.street_names(w.streets_view()), prefix), max_items)),
            },
        },
    }
}

/// What the house number query answers.
pub open spec fn housenumbers_answer(
    w: World,
    cc: Seq<char>,
    ci: Seq<char>,
    zip: Seq<char>,
    street: Seq<char>,
    prefix: Seq<char>,
    max_items: usize,
) -> Result<Seq<Seq<char>>, Missing> {
    match w.country_named(cc) {
        None => Err(Missing::Country),
        Some(c) => match c.city_named(ci) {
            None => Err(Missing::City),
            Some(x) => match x.area_named(zip) {
                None => Err(Missing::Zip),
                Some(a) => match a.street_named(street, w.streets_view()) {
                    None => Err(Missing::Street),
                    Some(st) => Ok(first_n(prefixed(st.number_texts(w.numbers_view()), prefix), max_items)),
                },
            },
        },
    }
}

/// Two sorted, well-formed indexes with the same tables and the same
/// entries give the same answer to every query.
pub proof fn lemma_same_query_answers(
    w1: World,
    w2: World,
    cc: Seq<char>,
    ci: Seq<char>,
    zip: Seq<char>,
    street: Seq<char>,
    prefix: Seq<char>,
    max_items: usize,
)
    requires
        w1.wf(),
        w2.wf(),
        w1.is_sorted(),
        w2.is_sorted(),
        w1.streets_view() == w2.streets_view(),
        w1.numbers_view() == w2.numbers_view(),
        w1.entries() == w2.entries(),
    ensures
        cities_answer(w1, cc, prefix, max_items) == cities_answer(w2, cc, prefix, max_items),
        zips_answer(w1, cc, ci, prefix, max_items) == zips_answer(w2, cc, ci, prefix, max_items),
        streets_answer(w1, cc, ci, zip, prefix, max_items) == streets_answer(w2, cc, ci, zip, prefix, max_items),
        housenumbers_answer(w1, cc, ci, zip, street, prefix, max_items) == housenumbers_answer(
            w2,
            cc,
            ci,
            zip,
            street,
            prefix,
            max_items,
        ),
{
    w1.lemma_same_answers(w2, cc, ci, zip, street);
}

fn keep_first(v: Vec<String>, max_items: usize) -> (r: Vec<String>)
    ensures
        views(r@) == first_n(views(v@), max_items),
{
    let mut v = v;
    let ghost before = v@;
    v.truncate(max_items);
    proof {
        if max_items < before.len() {
            assert(views(v@) =~= views(before).take(max_items as int));
        }
    }
    v
}

/// The cities of a country.
pub fn get_cities(
    w: &World,
    country_code: &str,
    prefix: &str,
    max_items: usize,
) -> (r: Result<Vec<String>, Missing>)
    requires
        w.wf(),
    ensures
        answer_view(r) == cities_answer(*w, country_code@, prefix@, max_items),
        match w.country_named(country_code@) {
            None => r == Err::<Vec<String>, Missing>(Missing::Country),
            Some(c) => r is Ok
                && views(r->Ok_0@) == first_n(prefixed(c.city_names(), prefix@), max_items)
                && (prefix@.len() == 0 ==> views(r->Ok_0@) == first_n(c.city_names(), max_items)),
        },
{
    match w.get_country(country_code.to_string()) {
        None => Err(Missing::Country),
        Some(country) => Ok(keep_first(country.iter_cities_prefixed(prefix), max_items)),
    }
}

/// The postal codes of a city.
pub fn get_zips(
    w: &World,
    country_code: &str,
    city_name: &str,
    prefix: &str,
    max_items: usize,
) -> (r: Result<Vec<String>, Missing>)
    requires
        w.wf(),
    ensures
        answer_view(r) == zips_answer(*w, country_code@, city_name@, prefix@, max_items),
        match w.country_named(country_code@) {
            None => r == Err::<Vec<String>, Missing>(Missing::Country),
            Some(c) => match c.city_named(city_name@) {
                None => r == Err::<Vec<String>, Missing>(Missing::City),
                Some(ci) => r is Ok
                    && views(r->Ok_0@) == first_n(prefixed(ci.zip_codes(), prefix@), max_items)
                    && (prefix@.len() == 0 ==> views(r->Ok_0@) == first_n(ci.zip_codes(), max_items)),
            },
        },
{
    match w.get_country(country_code.to_string()) {
        None => Err(Missing::Country),
        Some(country) => match country.get_city(city_name) {
            None => Err(Missing::City),
            Some(city) => Ok(keep_first(city.iter_zips_prefixed(prefix), max_items)),
        },
    }
}

/// The streets of a postal area, by name.
pub fn get_streets(
    w: &World,
    country_code: &str,
    city_name: &str,
    zip: &str,
    prefix: &str,
    max_items: usize,
) -> (r: Result<Vec<String>, Missing>)
    requires
        w.wf(),
    ensures
        answer_view(r) == streets_answer(*w, country_code@, city_name@, zip@, prefix@, max_items),
        match w.country_named(country_code@) {
            None => r == Err::<Vec<String>, Missing>(Missing::Country),
            Some(c) => match c.city_named(city_name@) {
                None => r == Err::<Vec<String>, Missing>(Missing::City),
                Some(ci) => match ci.area_named(zip@) {
                    None => r == Err::<Vec<String>, Missing>(Missing::Zip),
                    Some(a) => r is Ok
                        && views(r->Ok_0@) == first_n(prefixed(a.street_names(w.streets_view()), prefix@), max_items)
                        && (prefix@.len() == 0 ==> views(r->Ok_0@) == first_n(a.street_names(w.streets_view()), max_items)),
                },
            },
        },
{
    match w.get_country(country_code.to_string()) {
        None => Err(Missing::Country),
        Some(country) => match country.get_city(city_name) {
            None => Err(Missing::City),
            Some(city) => match city.get_postal_area(zip) {
                None => Err(Missing::Zip),
                Some(area) => {
                    proof {
                        w.lemma_area_bounded(country_code@, city_name@, zip@);
                    }
                    Ok(keep_first(area.iter_streets_prefixed(prefix, w), max_items))
                },
            },
        },
    }
}

/// The house numbers of a street.
pub fn get_housenumbers(
    w: &World,
    country_code: &str,
    city_name: &str,
    zip: &str,
    street: &str,
    prefix: &str,
    max_items: usize,
) -> (r: Result<Vec<String>, Missing>)
    requires
        w.wf(),
    ensures
        answer_view(r) == housenumbers_answer(*w, country_code@, city_name@, zip@, street@, prefix@, max_items),
        match w.country_named(country_code@) {
            None => r == Err::<Vec<String>, Missing>(Missing::Country),
            Some(c) => match c.city_named(city_name@) {
                None => r == Err::<Vec<String>, Missing>(Missing::City),
                Some(ci) => match ci.area_named(zip@) {
                    None => r == Err::<Vec<String>, Missing>(Missing::Zip),
                    Some(a) => match a.street_named(street@, w.streets_view()) {
                        None => r == Err::<Vec<String>, Missing>(Missing::Street),
                        Some(st) => r is Ok
                            && views(r->Ok_0@) == first_n(prefixed(st.number_texts(w.numbers_view()), prefix@), max_items)
                            && (prefix@.len() == 0 ==> views(r->Ok_0@) == first_n(st.number_texts(w.numbers_view()), max_items)),
                    },
                },
            },
        },
{
    match w.get_country(country_code.to_string()) {
        None => Err(Missing::Country),
        Some(country) => match country.get_city(city_name) {
            None => Err(Missing::City),
            Some(city) => match city.get_postal_area(zip) {
                None => Err(Missing::Zip),
                Some(area) => {
                    proof {
                        w.lemma_area_bounded(country_code@, city_name@, zip@);
                    }
                    match area.get_street(street, w) {
                        None => Err(Missing::Street),
                        Some(st) => {
                            proof {
                                w.lemma_street_bounded(*area, street@);
                            }
                            Ok(keep_first(st.iter_housenumbers_prefixed(prefix, w), max_items))
                        },
                    }
                },
            },
        },
    }
}


/// The digits of `s` after an optional leading `+`.
pub open spec fn unsigned_digits(s: Seq<char>) -> Seq<char> {
    if s.len() > 0 && s[0] == '+' {
        s.drop_first()
    } else {
        s
    }
}

/// The number that `usize::from_str` reads: an optional `+`, then one or
/// more decimal digits, of a value that fits.
pub open spec fn parsed_count(s: Seq<char>) -> Option<int> {
    let d = unsigned_digits(s);
    if d.len() > 0 && (forall|i: int| 0 <= i < d.len() ==> is_digit(#[trigger] d[i])) && digits_value(d) <= usize::MAX {
        Some(digits_value(d))
    } else {
        None
    }
}

proof fn lemma_digits_value_prefix(s: Seq<char>, k: int)
    requires
        0 <= k <= s.len(),
        forall|i: int| 0 <= i < s.len() ==> is_digit(#[trigger] s[i]),
    ensures
        0 <= digits_value(s.subrange(0, k)) <= digits_value(s),
    decreases s.len(),
{
    if k == s.len() {
        assert(s.subrange(0, k) =~= s);
        lemma_digits_value_nonneg(s);
    } else {
        let t = s.drop_last();
        assert(forall|i: int| 0 <= i < t.len() ==> t[i] == s[i]);
        assert(is_digit(s[s.len() - 1]));
        lemma_digits_value_prefix(t, k);
        assert(t.subrange(0, k) =~= s.subrange(0, k));
        lemma_digits_value_nonneg(t);
    }
}

proof fn lemma_digits_value_nonneg(s: Seq<char>)
    requires
        forall|i: int| 0 <= i < s.len() ==> is_digit(#[trigger] s[i]),
    ensures
        digits_value(s) >= 0,
    decreases s.len(),
{
    if s.len() > 0 {
        let t = s.drop_last();
        assert(forall|i: int| 0 <= i < t.len() ==> t[i] == s[i]);
        assert(is_digit(s[s.len() - 1]));
        lemma_digits_value_nonneg(t);
    }
}

/// The bound on the length of a response, from the value of the
/// `max-items` header: the number it holds, or no bound where it holds none.
pub fn max_items_from_header(value: &str) -> (r: usize)
    ensures
        r == match parsed_count(value@) {
            Some(n) => n as usize,
            None => usize::MAX,
        },
{
    let ghost s = value@;
    if !value.is_ascii() {
        proof {
            let d = unsigned_digits(s);
            if d.len() > 0 && (forall|i: int| 0 <= i < d.len() ==> is_digit(#[trigger] d[i])) {
                assert forall|i: int| 0 <= i < s.len() implies '\0' <= #[trigger] s[i] <= '\u{7f}' by {
                    if s.len() > 0 && s[0] == '+' {
                        if i > 0 {
                            assert(d[i - 1] == s[i]);
                        }
                    } else {
                        assert(d[i] == s[i]);
                    }
                }
            }
        }
        return usize::MAX;
    }
    let b = value.as_bytes();
    proof {
        is_ascii_spec_bytes(value);
    }
    let len = b.len();
    let start: usize = if len > 0 && b[0] == 43u8 { 1 } else { 0 };
    let ghost d = unsigned_digits(s);
    proof {
        if len > 0 {
            assert(s[0] as u8 == b@[0]);
            assert(s[0] <= '\u{7f}');
        }
        assert(d =~= s.subrange(start as int, len as int));
    }
    if start == len {
        return usize::MAX;
    }
    let mut v: usize = 0;
    let mut i: usize = start;
    while i < len
        invariant
            s == value@,
            len == b@.len() == s.len(),
            b@ == Seq::new(s.len(), |j: int| s[j] as u8),
            is_ascii_chars(s),
            start <= i <= len,
            start < len,
            d == s.subrange(start as int, len as int),
            d == unsigned_digits(s),
            forall|j: int| start <= j < i ==> is_digit(#[trigger] s[j]),
            v as int == digits_value(s.subrange(start as int, i as int)),
        decreases len - i,
    {
        let c = b[i];
        proof {
            assert(s[i as int] <= '\u{7f}');
            assert(s[i as int] as u8 == c);
        }
        if c < 48u8 || c > 57u8 {
            proof {
                assert(!is_digit(d[i - start]));
            }
            return usize::MAX;
        }
        proof {
            assert(is_digit(s[i as int]));
            assert(s.subrange(start as int, i + 1).drop_last() =~= s.subrange(start as int, i as int));
        }
        let next = match v.checked_mul(10) {
            Some(t) => t.checked_add((c - 48u8) as usize),
            None => None,
        };
        match next {
            Some(t) => {
                v = t;
            },
            None => {
                proof {
                    let p = s.subrange(start as int, i + 1);
                    assert(digits_value(p) > usize::MAX);
                    if forall|j: int| 0 <= j < d.len() ==> is_digit(#[trigger] d[j]) {
                        assert(d.subrange(0, i + 1 - start) =~= p);
                        lemma_digits_value_prefix(d, i + 1 - start);
                    }
                }
                return usize::MAX;
            },
        }
        i = i + 1;
    }
    proof {
        assert(s.subrange(start as int, len as int) =~= d);
        assert forall|j: int| 0 <= j < d.len() implies is_digit(#[trigger] d[j]) by {
            assert(d[j] == s[j + start]);
        }
    }
    v
}

} // verus!
