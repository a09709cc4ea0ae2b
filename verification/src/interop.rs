//! Sample values that are exchanged with a Haskell peer to check that both sides
//! read and write the same bytes.

use crate::ordered_map::OrderedMap;
use vstd::laws_cmp::obeys_cmp;
use vstd::prelude::*;
use vstd::string::*;

verus! {

/// Test string types.
#[derive(Debug, Clone, PartialEq)]
pub struct TestStrings {
    pub ts_string: String,
    pub ts_empty: String,
    pub ts_unicode: String,
}

/// Test collections (an `OrderedMap` for compatibility with Haskell's `Map`).
#[derive(Debug, Clone, PartialEq)]
pub struct TestCollections {
    pub tc_list: Vec<i32>,
    pub tc_map: OrderedMap<String, i32>,
    pub tc_empty: Vec<String>,
}

/// A person, nested in other samples.
#[derive(Debug, Clone, PartialEq)]
pub struct Person {
    pub person_name: String,
    pub person_age: u32,
    pub person_email: Option<String>,
}

/// Test enums (the variant order matches the Haskell type).
#[derive(Debug, Clone, PartialEq)]
pub enum TestEnum {
    VariantA,
    VariantB(i32),
    VariantC { vc_x: i32, vc_y: i32 },
}

impl TestStrings {
    /// An ASCII text, an empty text and a text outside ASCII.
    pub fn sample() -> (t: Self)
        ensures
            t.ts_string@ == "Hello from Rust!"@,
            t.ts_empty@ == Seq::<char>::empty(),
            t.ts_unicode@ == "こんにちは 🦀 Γειά σου"@,
    {
        TestStrings {
            ts_string: String::from_str("Hello from Rust!"),
            ts_empty: String::new(),
            ts_unicode: String::from_str("こんにちは 🦀 Γειά σου"),
        }
    }
}

/// The map `a → 1, b → 2, g → 3`.
pub open spec fn three_entries(a: String, b: String, g: String) -> Map<String, i32> {
    map![a => 1i32, b => 2i32, g => 3i32]
}

impl TestCollections {
    /// The list 1 to 5, the map alpha → 1, beta → 2, gamma → 3, and an empty list.
    pub fn sample() -> (t: Self)
        ensures
            t.tc_list@ == seq![1i32, 2, 3, 4, 5],
            t.tc_empty@.len() == 0,
            obeys_cmp::<String>() ==> exists|a: String, b: String, g: String|
                a@ == "alpha"@ && b@ == "beta"@ && g@ == "gamma"@ && t.tc_map@
                    == #[trigger] three_entries(a, b, g),
    {
        let mut map = OrderedMap::new();
        let a = String::from_str("alpha");
        let b = String::from_str("beta");
        let g = String::from_str("gamma");
        let ghost (ga, gb, gg) = (a, b, g);
        map.insert(a, 1);
        map.insert(b, 2);
        map.insert(g, 3);
        let tc_list = vec![1, 2, 3, 4, 5];
        let t = TestCollections { tc_list, tc_map: map, tc_empty: Vec::new() };
        proof {
            if obeys_cmp::<String>() {
                assert(t.tc_map@ == three_entries(ga, gb, gg));
            }
        }
        t
    }
}

impl Person {
    /// A person with the given name, age and optional email.
    pub fn sample(name: &str, age: u32, email: Option<&str>) -> (p: Self)
        ensures
            p.person_name@ == name@,
            p.person_age == age,
            match email {
                Some(e) => p.person_email matches Some(x) && x@ == e@,
                None => p.person_email is None,
            },
    {
        let person_email = match email {
            Some(e) => Some(String::from_str(e)),
            None => None,
        };
        Person { person_name: String::from_str(name), person_age: age, person_email }
    }
}

impl TestEnum {
    /// One value of each variant.
    pub fn samples() -> (v: Vec<Self>)
        ensures
            v@ == seq![
                TestEnum::VariantA,
                TestEnum::VariantB(42),
                TestEnum::VariantC { vc_x: 10, vc_y: 20 },
            ],
    {
        vec![TestEnum::VariantA, TestEnum::VariantB(42), TestEnum::VariantC { vc_x: 10, vc_y: 20 }]
    }
}

} // verus!
