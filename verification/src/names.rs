//! Names of well-known temperament classes, by limit and key.
use crate::shape::ints;
use crate::Exponent;
use vstd::prelude::*;
use vstd::string::StringExecFns;

verus! {

/// The name on record for the class with the given key in the
/// limit with the given headings.
pub open spec fn recorded_name(headings: Seq<Seq<char>>, key: Seq<int>) -> Option<Seq<char>> {
    if headings == seq!["2"@, "5"@, "11"@] {
        if key == seq![1int, 3, 2, 0, -7] {
            Some("Wizz"@)
        } else if key == seq![1int, 1, 0, 1, 0, 0] {
            Some("2.5.11-limit JI"@)
        } else {
            None
        }
    } else if headings == seq!["2"@, "3"@, "5"@] {
        if key == seq![1int, 4, 1, 0, -4] {
            Some("Meantone"@)
        } else {
            None
        }
    } else if headings == seq!["2"@, "3"@, "5"@, "7"@, "11"@] {
        if key == seq![1int, 2, -3, 1, 0, 2, -1, 1, 0, 0, -5, 12] {
            Some("Marvel"@)
        } else if key == seq![2int, 1, 0, 2, 1, 1, 5, 1, 1, 1, 2, 2] {
            Some("Jove"@)
        } else {
            None
        }
    } else {
        None
    }
}

/// Whether the headings are the given ones.
fn headings_are(headings: &Vec<String>, expected: &Vec<&'static str>) -> (same: bool)
    ensures
        same == (Seq::new(headings.len() as nat, |k: int| headings[k]@) == Seq::new(
            expected.len() as nat,
            |k: int| expected[k]@,
        )),
{
    let ghost a = Seq::new(headings.len() as nat, |k: int| headings[k]@);
    let ghost b = Seq::new(expected.len() as nat, |k: int| expected[k]@);
    if headings.len() != expected.len() {
        proof {
            assert(a.len() != b.len());
        }
        return false;
    }
    let mut i: usize = 0;
    while i < headings.len()
        invariant
            i <= headings.len(),
            headings.len() == expected.len(),
            a == Seq::new(headings.len() as nat, |k: int| headings[k]@),
            b == Seq::new(expected.len() as nat, |k: int| expected[k]@),
            forall|k: int| 0 <= k < i ==> a[k] == b[k],
        decreases headings.len() - i,
    {
        let other = String::from_str(expected[i]);
        if headings[i] != other {
            proof {
                assert(a[i as int] != b[i as int]);
            }
            return false;
        }
        i += 1;
    }
    proof {
        assert(a =~= b);
    }
    true
}

/// Whether the key is the given one.
fn key_is(key: &[Exponent], expected: &Vec<Exponent>) -> (same: bool)
    ensures
        same == (ints(key@) == ints(expected@)),
{
    if key.len() != expected.len() {
        proof {
            assert(ints(key@).len() != ints(expected@).len());
        }
        return false;
    }
    let mut i: usize = 0;
    while i < key.len()
        invariant
            i <= key.len(),
            key.len() == expected.len(),
            forall|k: int| 0 <= k < i ==> key[k] == expected[k],
        decreases key.len() - i,
    {
        if key[i] != expected[i] {
            proof {
                assert(ints(key@)[i as int] != ints(expected@)[i as int]);
            }
            return false;
        }
        i += 1;
    }
    proof {
        assert(ints(key@) =~= ints(expected@));
    }
    true
}

/// Looks up the name of a temperament class.
pub fn name_of_class(headings: &Vec<String>, key: &[Exponent]) -> (name: Option<&'static str>)
    ensures
        match recorded_name(Seq::new(headings.len() as nat, |k: int| headings[k]@), ints(key@)) {
            Some(text) => name matches Some(s) && s@ == text,
            None => name is None,
        },
{
    let ghost h = Seq::new(headings.len() as nat, |k: int| headings[k]@);
    let limit_2_5_11: Vec<&'static str> = vec!["2", "5", "11"];
    let limit_5: Vec<&'static str> = vec!["2", "3", "5"];
    let limit_11: Vec<&'static str> = vec!["2", "3", "5", "7", "11"];
    proof {
        assert(Seq::new(limit_2_5_11.len() as nat, |k: int| limit_2_5_11[k]@) =~= seq![
            "2"@,
            "5"@,
            "11"@,
        ]);
        assert(Seq::new(limit_5.len() as nat, |k: int| limit_5[k]@) =~= seq!["2"@, "3"@, "5"@]);
        assert(Seq::new(limit_11.len() as nat, |k: int| limit_11[k]@) =~= seq![
            "2"@,
            "3"@,
            "5"@,
            "7"@,
            "11"@,
        ]);
        reveal_strlit("2");
        reveal_strlit("3");
        reveal_strlit("5");
        reveal_strlit("7");
        reveal_strlit("11");
    }
    if headings_are(headings, &limit_2_5_11) {
        let wizz: Vec<Exponent> = vec![1, 3, 2, 0, -7];
        let ji: Vec<Exponent> = vec![1, 1, 0, 1, 0, 0];
        proof {
            assert(ints(wizz@) =~= seq![1int, 3, 2, 0, -7]);
            assert(ints(ji@) =~= seq![1int, 1, 0, 1, 0, 0]);
        }
        if key_is(key, &wizz) {
            Some("Wizz")
        } else if key_is(key, &ji) {
            Some("2.5.11-limit JI")
        } else {
            None
        }
    } else if headings_are(headings, &limit_5) {
        let meantone: Vec<Exponent> = vec![1, 4, 1, 0, -4];
        proof {
            assert(ints(meantone@) =~= seq![1int, 4, 1, 0, -4]);
        }
        if key_is(key, &meantone) {
            Some("Meantone")
        } else {
            None
        }
    } else if headings_are(headings, &limit_11) {
        let marvel: Vec<Exponent> = vec![1, 2, -3, 1, 0, 2, -1, 1, 0, 0, -5, 12];
        let jove: Vec<Exponent> = vec![2, 1, 0, 2, 1, 1, 5, 1, 1, 1, 2, 2];
        proof {
            assert(ints(marvel@) =~= seq![1int, 2, -3, 1, 0, 2, -1, 1, 0, 0, -5, 12]);
            assert(ints(jove@) =~= seq![2int, 1, 0, 2, 1, 1, 5, 1, 1, 1, 2, 2]);
        }
        if key_is(key, &marvel) {
            Some("Marvel")
        } else if key_is(key, &jove) {
            Some("Jove")
        } else {
            None
        }
    } else {
        None
    }
}

} // verus!
