//! Collections and their versions.
//!
//! A collection is a directory. Beside its segments it holds one file for
//! each version, named `version_` and the number of the version in decimal
//! digits. The file of a version holds its table of content: the names of
//! the segments that make up the collection at that version, in order. The
//! latest version is the one with the highest number.

use vstd::prelude::*;
use vstd::string::StringExecFns;
use vstd::utf8::{encode_utf8, is_ascii_chars, is_ascii_chars_encode_utf8};

verus! {

/// The bytes of `version_`.
pub open spec fn version_prefix() -> Seq<u8> {
    seq![118u8, 101u8, 114u8, 115u8, 105u8, 111u8, 110u8, 95u8]
}

/// The byte is a decimal digit.
pub open spec fn is_digit(b: u8) -> bool {
    48 <= b <= 57
}

/// The number that the decimal digits spell.
pub open spec fn decimal_value(digits: Seq<u8>) -> nat
    decreases digits.len(),
{
    if digits.len() == 0 {
        0
    } else {
        10 * decimal_value(digits.drop_last()) + (digits.last() - 48) as nat
    }
}

/// The version that a file name stands for: the name is `version_` followed
/// by one decimal digit or more, which spell a number that fits in 64 bits.
pub open spec fn version_of_name(name: Seq<u8>) -> Option<u64> {
    let digits = name.subrange(8, name.len() as int);
    if name.len() > 8 && name.subrange(0, 8) == version_prefix() && (forall|i: int|
        0 <= i < digits.len() ==> is_digit(#[trigger] digits[i])) && decimal_value(digits)
        <= u64::MAX {
        Some(decimal_value(digits) as u64)
    } else {
        None
    }
}

/// `version` is the latest of the versions that `names` stand for: one of
/// the names stands for it, and none for a higher one. `None` is the latest
/// where no name stands for a version.
pub open spec fn is_latest_version(names: Seq<Seq<u8>>, version: Option<u64>) -> bool {
    match version {
        None => forall|i: int| 0 <= i < names.len() ==> version_of_name(#[trigger] names[i]) is None,
        Some(v) => {
            &&& exists|i: int| 0 <= i < names.len() && version_of_name(#[trigger] names[i]) == Some(v)
            &&& forall|i: int|
                0 <= i < names.len() && version_of_name(#[trigger] names[i]) is Some
                    ==> version_of_name(names[i])->Some_0 <= v
        },
    }
}

/// A listing has one latest version.
pub proof fn lemma_latest_is_unique(names: Seq<Seq<u8>>, a: Option<u64>, b: Option<u64>)
    requires
        is_latest_version(names, a),
    ensures
        is_latest_version(names, b) ==> a == b,
{
    if is_latest_version(names, b) {
        match (a, b) {
            (Some(x), Some(y)) => {
                let i = choose|i: int|
                    0 <= i < names.len() && version_of_name(#[trigger] names[i]) == Some(x);
                let j = choose|j: int|
                    0 <= j < names.len() && version_of_name(#[trigger] names[j]) == Some(y);
                assert(version_of_name(names[i])->Some_0 <= y);
                assert(version_of_name(names[j])->Some_0 <= x);
            },
            (Some(x), None) => {
                let i = choose|i: int|
                    0 <= i < names.len() && version_of_name(#[trigger] names[i]) == Some(x);
                assert(version_of_name(names[i]) is None);
            },
            (None, Some(y)) => {
                let j = choose|j: int|
                    0 <= j < names.len() && version_of_name(#[trigger] names[j]) == Some(y);
                assert(version_of_name(names[j]) is None);
            },
            (None, None) => {},
        }
    }
}

/// The names as bytes.
pub open spec fn names_as_bytes(names: Seq<String>) -> Seq<Seq<u8>> {
    Seq::new(names.len(), |i: int| encode_utf8(names[i]@))
}

/// More digits never spell a smaller number.
proof fn lemma_decimal_value_grows(digits: Seq<u8>, i: int)
    requires
        0 <= i <= digits.len(),
        forall|j: int| 0 <= j < digits.len() ==> is_digit(#[trigger] digits[j]),
    ensures
        decimal_value(digits.take(i)) <= decimal_value(digits),
    decreases digits.len() - i,
{
    if i == digits.len() {
        assert(digits.take(i) =~= digits);
    } else {
        lemma_decimal_value_grows(digits, i + 1);
        assert(digits.take(i + 1).drop_last() =~= digits.take(i));
    }
}

/// The version that a file name stands for, if it stands for one.
pub fn parse_version_name(name: &[u8]) -> (r: Option<u64>)
    ensures
        r == version_of_name(name@),
{
    let n = name.len();
    if n <= 8 {
        return None;
    }
    if name[0] != 118 || name[1] != 101 || name[2] != 114 || name[3] != 115 || name[4] != 105
        || name[5] != 111 || name[6] != 110 || name[7] != 95 {
        assert(name@.subrange(0, 8) != version_prefix()) by {
            let p = name@.subrange(0, 8);
            assert(p[0] == name@[0] && p[1] == name@[1] && p[2] == name@[2] && p[3] == name@[3]
                && p[4] == name@[4] && p[5] == name@[5] && p[6] == name@[6] && p[7] == name@[7]);
        }
        return None;
    }
    assert(name@.subrange(0, 8) =~= version_prefix());
    let ghost digits = name@.subrange(8, n as int);
    let mut value: u64 = 0;
    let mut i: usize = 8;
    proof {
        assert(digits.take(0) =~= Seq::<u8>::empty());
    }
    while i < n
        invariant
            8 <= i <= n,
            n == name@.len(),
            digits == name@.subrange(8, n as int),
            forall|j: int| 0 <= j < i - 8 ==> is_digit(#[trigger] digits[j]),
            value == decimal_value(digits.take(i - 8)),
        decreases n - i,
    {
        let b = name[i];
        if b < 48 || b > 57 {
            assert(!is_digit(digits[i - 8]));
            return None;
        }
        let d = (b - 48) as u64;
        proof {
            assert(digits.take(i - 8 + 1).drop_last() =~= digits.take(i - 8));
            assert(digits.take(i - 8 + 1).last() == b);
        }
        if value > (u64::MAX - d) / 10 {
            proof {
                if forall|j: int| 0 <= j < digits.len() ==> is_digit(#[trigger] digits[j]) {
                    lemma_decimal_value_grows(digits, i - 8 + 1);
                }
            }
            return None;
        }
        value = 10 * value + d;
        i += 1;
    }
    proof {
        assert(digits.take(n - 8) =~= digits);
    }
    Some(value)
}

/// The decimal digit `d` as a character.
pub open spec fn digit_char(d: nat) -> char {
    if d == 0 {
        '0'
    } else if d == 1 {
        '1'
    } else if d == 2 {
        '2'
    } else if d == 3 {
        '3'
    } else if d == 4 {
        '4'
    } else if d == 5 {
        '5'
    } else if d == 6 {
        '6'
    } else if d == 7 {
        '7'
    } else if d == 8 {
        '8'
    } else {
        '9'
    }
}

/// The decimal digits of `n`, without leading zeros.
pub open spec fn decimal_chars(n: nat) -> Seq<char>
    decreases n,
{
    if n < 10 {
        seq![digit_char(n)]
    } else {
        decimal_chars(n / 10).push(digit_char(n % 10))
    }
}

/// The name of the file of version `version`.
pub open spec fn version_name(version: nat) -> Seq<char> {
    "version_"@ + decimal_chars(version)
}

/// The characters as bytes, for characters that take one byte each.
pub open spec fn as_bytes(chars: Seq<char>) -> Seq<u8> {
    Seq::new(chars.len(), |i: int| chars[i] as u8)
}

/// The decimal digits of a number spell that number.
proof fn lemma_decimal_chars(n: nat)
    ensures
        decimal_chars(n).len() > 0,
        is_ascii_chars(decimal_chars(n)),
        forall|i: int|
            0 <= i < decimal_chars(n).len() ==> is_digit(#[trigger] as_bytes(decimal_chars(n))[i]),
        decimal_value(as_bytes(decimal_chars(n))) == n,
    decreases n,
{
    let chars = decimal_chars(n);
    let bytes = as_bytes(chars);
    if n < 10 {
        assert(bytes.drop_last() =~= Seq::<u8>::empty());
        assert(decimal_value(bytes.drop_last()) == 0);
        assert(bytes.last() == digit_char(n) as u8);
    } else {
        lemma_decimal_chars(n / 10);
        let before = decimal_chars(n / 10);
        assert(bytes.drop_last() =~= as_bytes(before));
        assert(bytes.last() == digit_char(n % 10) as u8);
        assert forall|i: int| 0 <= i < chars.len() implies is_digit(#[trigger] bytes[i]) by {
            if i < before.len() {
                assert(bytes[i] == as_bytes(before)[i]);
            }
        }
        assert forall|i: int| 0 <= i < chars.len() implies '\0' <= #[trigger] chars[i]
            <= '\u{7f}' by {
            if i < before.len() {
                assert(chars[i] == before[i]);
            }
        }
    }
}

/// The name of the file of a version stands for that version.
pub proof fn lemma_version_name_round_trip(version: u64)
    ensures
        version_of_name(encode_utf8(version_name(version as nat))) == Some(version),
{
    reveal_strlit("version_");
    let prefix = "version_"@;
    let digits = decimal_chars(version as nat);
    let chars = version_name(version as nat);
    lemma_decimal_chars(version as nat);
    assert(is_ascii_chars(chars)) by {
        assert forall|i: int| 0 <= i < chars.len() implies '\0' <= #[trigger] chars[i]
            <= '\u{7f}' by {
            if i >= 8 {
                assert(chars[i] == digits[i - 8]);
            }
        }
    }
    is_ascii_chars_encode_utf8(chars);
    let name = encode_utf8(chars);
    assert(name =~= as_bytes(chars));
    assert(name.subrange(0, 8) =~= version_prefix());
    assert(name.subrange(8, name.len() as int) =~= as_bytes(digits));
}

/// The digit `d` as a string.
fn digit_str(d: u64) -> (s: &'static str)
    requires
        d < 10,
    ensures
        s@ == seq![digit_char(d as nat)],
{
    proof {
        reveal_strlit("0");
        reveal_strlit("1");
        reveal_strlit("2");
        reveal_strlit("3");
        reveal_strlit("4");
        reveal_strlit("5");
        reveal_strlit("6");
        reveal_strlit("7");
        reveal_strlit("8");
        reveal_strlit("9");
    }
    let s = if d == 0 {
        "0"
    } else if d == 1 {
        "1"
    } else if d == 2 {
        "2"
    } else if d == 3 {
        "3"
    } else if d == 4 {
        "4"
    } else if d == 5 {
        "5"
    } else if d == 6 {
        "6"
    } else if d == 7 {
        "7"
    } else if d == 8 {
        "8"
    } else {
        "9"
    };
    proof {
        assert(s@ =~= seq![digit_char(d as nat)]);
    }
    s
}

/// The decimal digits of `n`.
fn decimal_string(n: u64) -> (s: String)
    ensures
        s@ == decimal_chars(n as nat),
    decreases n,
{
    if n < 10 {
        String::from_str(digit_str(n))
    } else {
        let s = decimal_string(n / 10).concat(digit_str(n % 10));
        proof {
            assert(s@ =~= decimal_chars(n as nat));
        }
        s
    }
}

/// The name of the file of version `version`.
pub fn version_file_name(version: u64) -> (name: String)
    ensures
        name@ == version_name(version as nat),
        version_of_name(encode_utf8(name@)) == Some(version),
{
    proof {
        lemma_version_name_round_trip(version);
    }
    let digits = decimal_string(version);
    String::from_str("version_").concat(digits.as_str())
}

/// The table of content of one version of a collection: the names of its
/// segments, in the order in which they were added.
#[derive(Debug, Clone)]
pub struct TableOfContent {
    pub toc: Vec<String>,
}

impl TableOfContent {
    /// The table with the given segment names.
    pub fn new(toc: Vec<String>) -> (t: Self)
        ensures
            t.toc == toc,
    {
        Self { toc }
    }
}

/// The reader of a collection directory.
pub struct CollectionReader {
    path: String,
}

impl CollectionReader {
    /// The directory of the collection.
    pub closed spec fn path(&self) -> Seq<char> {
        self.path@
    }

    /// A reader of the collection in the directory `path`.
    pub fn new(path: String) -> (reader: Self)
        ensures
            reader.path() == path@,
    {
        Self { path }
    }

    /// The path of the file that holds the options of the collection.
    pub fn config_path(&self) -> (p: String)
        ensures
            p@ == self.path() + "/collection_config.json"@,
    {
        self.path.clone().concat("/collection_config.json")
    }

    /// The path of what is named `name` in the collection's directory: a
    /// segment, or the file of a version.
    pub fn entry_path(&self, name: &str) -> (p: String)
        ensures
            p@ == self.path() + "/"@ + name@,
    {
        self.path.clone().concat("/").concat(name)
    }

    /// The latest of the versions that the given file names stand for.
    pub fn latest_version(names: &Vec<String>) -> (r: Option<u64>)
        ensures
            is_latest_version(names_as_bytes(names@), r),
    {
        let ghost all = names_as_bytes(names@);
        let mut latest: Option<u64> = None;
        let mut i: usize = 0;
        while i < names.len()
            invariant
                i <= names@.len(),
                all == names_as_bytes(names@),
                is_latest_version(all.take(i as int), latest),
            decreases names@.len() - i,
        {
            let found = parse_version_name(names[i].as_str().as_bytes());
            let ghost before = all.take(i as int);
            let ghost after = all.take(i as int + 1);
            let ghost old_latest = latest;
            proof {
                assert(after =~= before.push(all[i as int]));
                assert(found == version_of_name(all[i as int]));
            }
            match found {
                Some(v) => {
                    let higher = match latest {
                        Some(l) => v > l,
                        None => true,
                    };
                    if higher {
                        latest = Some(v);
                    }
                },
                None => {},
            }
            proof {
                assert forall|j: int| 0 <= j < after.len() && version_of_name(
                    #[trigger] after[j],
                ) is Some implies latest is Some && version_of_name(after[j])->Some_0
                    <= latest->Some_0 by {
                    if j < i {
                        assert(after[j] == before[j]);
                    }
                }
                match latest {
                    Some(l) => {
                        if found == Some(l) {
                            assert(version_of_name(after[i as int]) == Some(l));
                        } else {
                            let w = choose|w: int|
                                0 <= w < before.len() && version_of_name(#[trigger] before[w])
                                    == Some(l);
                            assert(after[w] == before[w]);
                        }
                    },
                    None => {
                        assert forall|j: int| 0 <= j < after.len() implies version_of_name(
                            #[trigger] after[j],
                        ) is None by {
                            if j < i {
                                assert(after[j] == before[j]);
                            }
                        }
                    },
                }
            }
            i += 1;
        }
        proof {
            assert(all.take(i as int) =~= all);
        }
        latest
    }

    /// The version to write next: 0 for a collection without versions, and
    /// else one more than the latest. It is higher than every version there
    /// is, so that no file of a version is ever written twice. `None` where
    /// the number of the latest version cannot be counted up.
    pub fn next_version(names: &Vec<String>) -> (r: Option<u64>)
        ensures
            r is None <==> is_latest_version(names_as_bytes(names@), Some(u64::MAX)),
            r is Some ==> forall|i: int|
                0 <= i < names@.len() ==> version_of_name(
                    #[trigger] names_as_bytes(names@)[i],
                ) != r,
            r is Some ==> (r->Some_0 == 0 && is_latest_version(names_as_bytes(names@), None))
                || (r->Some_0 > 0 && is_latest_version(
                names_as_bytes(names@),
                Some((r->Some_0 - 1) as u64),
            )),
    {
        let ghost all = names_as_bytes(names@);
        match Self::latest_version(names) {
            None => Some(0),
            Some(v) => {
                if v == u64::MAX {
                    None
                } else {
                    proof {
                        lemma_latest_is_unique(all, Some(v), Some(u64::MAX));
                    }
                    Some(v + 1)
                }
            },
        }
    }

    /// The path of the file of version `version`.
    pub fn version_path(&self, version: u64) -> (p: String)
        ensures
            p@ == self.path() + "/"@ + version_name(version as nat),
    {
        let name = version_file_name(version);
        self.entry_path(name.as_str())
    }

    /// The paths of the segments of a table of content, in its order.
    pub fn segment_paths(&self, toc: &TableOfContent) -> (paths: Vec<String>)
        ensures
            paths@.len() == toc.toc@.len(),
            forall|i: int|
                0 <= i < paths@.len() ==> (#[trigger] paths@[i])@ == self.path() + "/"@
                    + toc.toc@[i]@,
    {
        let mut paths: Vec<String> = Vec::new();
        let mut i: usize = 0;
        while i < toc.toc.len()
            invariant
                i <= toc.toc@.len(),
                paths@.len() == i,
                forall|j: int|
                    0 <= j < i ==> (#[trigger] paths@[j])@ == self.path() + "/"@ + toc.toc@[j]@,
            decreases toc.toc@.len() - i,
        {
            let p = self.entry_path(toc.toc[i].as_str());
            paths.push(p);
            i += 1;
        }
        paths
    }
}

} // verus!
