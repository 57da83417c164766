//! Request headers as plain values, and matching a header against an
//! expected value.

use vstd::prelude::*;
use crate::text::chars_of;

verus! {

/// A request's headers in the order in which they arrived: each a name,
/// lower case as HTTP header names are kept, and the raw value bytes.
pub struct HeaderList {
    pub entries: Vec<(String, Vec<u8>)>,
}

/// `c` with ASCII upper-case letters made lower case.
pub open spec fn lower_char(c: char) -> char {
    if 'A' <= c <= 'Z' {
        ((c as u32) + 32) as char
    } else {
        c
    }
}

/// Two names that are equal up to ASCII case.
pub open spec fn same_name(a: Seq<char>, b: Seq<char>) -> bool {
    &&& a.len() == b.len()
    &&& forall|i: int| 0 <= i < a.len() ==> lower_char(#[trigger] a[i]) == lower_char(b[i])
}

/// A byte that may stand in a header value read as text: visible ASCII or
/// a tab.
pub open spec fn is_visible_ascii(b: u8) -> bool {
    (32 <= b && b < 127) || b == 9
}

/// `b` with ASCII upper-case letters made lower case.
pub open spec fn lower_byte(b: u8) -> u8 {
    if 65 <= b <= 90 {
        (b + 32) as u8
    } else {
        b
    }
}

/// The value `bytes`, read as text and made lower case.
pub open spec fn lowered_text(bytes: Seq<u8>) -> Seq<char> {
    bytes.map_values(|b: u8| lower_byte(b) as char)
}

/// The value of the first header named `name` (up to ASCII case).
pub open spec fn first_value(entries: Seq<(Seq<char>, Seq<u8>)>, name: Seq<char>) -> Option<Seq<u8>>
    decreases entries.len(),
{
    if entries.len() == 0 {
        None
    } else if same_name(entries[0].0, name) {
        Some(entries[0].1)
    } else {
        first_value(entries.drop_first(), name)
    }
}

/// The values of every header named `name` (up to ASCII case), in order.
pub open spec fn all_values(entries: Seq<(Seq<char>, Seq<u8>)>, name: Seq<char>) -> Seq<Seq<u8>>
    decreases entries.len(),
{
    if entries.len() == 0 {
        Seq::empty()
    } else if same_name(entries[0].0, name) {
        seq![entries[0].1] + all_values(entries.drop_first(), name)
    } else {
        all_values(entries.drop_first(), name)
    }
}

/// The header named `name` is there, its value reads as text, and that text
/// is `expected` once made lower case.
pub open spec fn header_is(entries: Seq<(Seq<char>, Seq<u8>)>, name: Seq<char>, expected: Seq<char>) -> bool {
    match first_value(entries, name) {
        Some(v) => (forall|i: int| 0 <= i < v.len() ==> is_visible_ascii(#[trigger] v[i])) && lowered_text(v)
            == expected,
        None => false,
    }
}

impl View for HeaderList {
    type V = Seq<(Seq<char>, Seq<u8>)>;

    open spec fn view(&self) -> Seq<(Seq<char>, Seq<u8>)> {
        self.entries@.map_values(|e: (String, Vec<u8>)| (e.0@, e.1@))
    }
}

fn lower_ascii_char(c: char) -> (r: char)
    ensures
        r == lower_char(c),
{
    if 'A' <= c && c <= 'Z' {
        let b = c as u8;
        assert(b as char == c);
        ((b + 32) as char)
    } else {
        c
    }
}

fn names_match(a: &Vec<char>, b: &Vec<char>) -> (r: bool)
    ensures
        r == same_name(a@, b@),
{
    if a.len() != b.len() {
        return false;
    }
    let mut i: usize = 0;
    while i < a.len()
        invariant
            a.len() == b.len(),
            i <= a.len(),
            forall|j: int| 0 <= j < i ==> lower_char(#[trigger] a@[j]) == lower_char(b@[j]),
        decreases a.len() - i,
    {
        if lower_ascii_char(a[i]) != lower_ascii_char(b[i]) {
            return false;
        }
        i = i + 1;
    }
    true
}

impl HeaderList {
    /// The value of the first header named `name` (up to ASCII case).
    pub fn get(&self, name: &str) -> (value: Option<&Vec<u8>>)
        ensures
            match value {
                Some(v) => first_value(self@, name@) == Some(v@),
                None => first_value(self@, name@) is None,
            },
    {
        let wanted = chars_of(name);
        let mut i: usize = 0;
        assert(self@.subrange(0, self@.len() as int) =~= self@);
        while i < self.entries.len()
            invariant
                i <= self.entries.len(),
                wanted@ == name@,
                first_value(self@, name@) == first_value(self@.subrange(i as int, self@.len() as int), name@),
            decreases self.entries.len() - i,
        {
            let ghost rest = self@.subrange(i as int, self@.len() as int);
            assert(rest.drop_first() =~= self@.subrange(i + 1, self@.len() as int));
            let entry_name = chars_of(self.entries[i].0.as_str());
            if names_match(&entry_name, &wanted) {
                return Some(&self.entries[i].1);
            }
            i = i + 1;
        }
        None
    }

    /// The values of every header named `name` (up to ASCII case), in order.
    pub fn get_all(&self, name: &str) -> (values: Vec<Vec<u8>>)
        ensures
            values@.map_values(|v: Vec<u8>| v@) == all_values(self@, name@),
    {
        let wanted = chars_of(name);
        let mut values: Vec<Vec<u8>> = Vec::new();
        let mut i = self.entries.len();
        assert(self@.subrange(i as int, self@.len() as int) =~= Seq::<(Seq<char>, Seq<u8>)>::empty());
        while i > 0
            invariant
                i <= self.entries.len(),
                wanted@ == name@,
                values@.map_values(|v: Vec<u8>| v@) == all_values(
                    self@.subrange(i as int, self@.len() as int),
                    name@,
                ),
            decreases i,
        {
            i = i - 1;
            let ghost rest = self@.subrange(i as int, self@.len() as int);
            assert(rest.drop_first() =~= self@.subrange(i + 1, self@.len() as int));
            let entry_name = chars_of(self.entries[i].0.as_str());
            if names_match(&entry_name, &wanted) {
                let ghost before = values@.map_values(|v: Vec<u8>| v@);
                values.insert(0, self.entries[i].1.clone());
                assert(values@.map_values(|v: Vec<u8>| v@) =~= seq![self@[i as int].1] + before);
            }
        }
        assert(self@.subrange(0, self@.len() as int) =~= self@);
        values
    }
}

/// Whether the header `name` is there and, read as text and made lower
/// case, equals `value`. A missing header, or one whose value holds bytes
/// other than visible ASCII and tabs, does not match.
pub fn header_match(headers: &HeaderList, name: &str, value: &str) -> (matches: bool)
    ensures
        matches == header_is(headers@, name@, value@),
{
    match headers.get(name) {
        None => false,
        Some(v) => {
            let expected = chars_of(value);
            if v.len() != expected.len() {
                proof {
                    if forall|i: int| 0 <= i < v@.len() ==> is_visible_ascii(#[trigger] v@[i]) {
                        assert(lowered_text(v@).len() == v@.len());
                    }
                }
                return false;
            }
            let mut visible = true;
            let mut equal = true;
            let mut i: usize = 0;
            while i < v.len()
                invariant
                    i <= v.len() == expected.len(),
                    expected@ == value@,
                    visible == forall|j: int| 0 <= j < i ==> is_visible_ascii(#[trigger] v@[j]),
                    equal == forall|j: int| 0 <= j < i ==> (lower_byte(#[trigger] v@[j]) as char) == expected@[j],
                decreases v.len() - i,
            {
                let b = v[i];
                if !((32 <= b && b < 127) || b == 9) {
                    visible = false;
                }
                let lowered: u8 = if 65 <= b && b <= 90 { b + 32 } else { b };
                if (lowered as char) != expected[i] {
                    equal = false;
                }
                i = i + 1;
            }
            proof {
                if equal {
                    assert(lowered_text(v@) =~= value@);
                } else {
                    let j = choose|j: int| 0 <= j < v.len() && !((lower_byte(#[trigger] v@[j]) as char) == expected@[j]);
                    assert(lowered_text(v@)[j] != value@[j]);
                }
            }
            visible && equal
        },
    }
}

} // verus!
