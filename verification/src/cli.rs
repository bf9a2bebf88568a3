//! Command line arguments that name disks and size dynamic memory.
use crate::disks::{in_name_order, name_bytes, Disks};
use crate::fdt::{digit_text, hex_digit};
use vstd::prelude::*;
use vstd::utf8::*;

verus! {

#[derive(Debug)]
pub enum ArgumentError {
    EmptyDiskPath { name: String },
    DuplicateDisk { name: String },
    PeerUsage,
    /// The number of vCPUs is no number.
    CpuCount,
    /// A block size was given for dynamic memory that is not there.
    MissingCapacity,
}

/// The size of a block of dynamic memory where none is given, in MiB.
pub const BLOCK_SIZE_MIB: u64 = 2;

/// The size of a block, as it was given or as it is by itself.
pub open spec fn block_size_of(capacity: Option<u64>, given: Option<u64>) -> Result<
    u64,
    ArgumentError,
> {
    match (capacity, given) {
        (_, None) => Ok(BLOCK_SIZE_MIB),
        (Some(_), Some(mib)) => Ok(mib),
        (None, Some(_)) => Err(ArgumentError::MissingCapacity),
    }
}

/// The size of a block of dynamic memory of `capacity` MiB. It may be given only
/// together with the capacity.
pub fn block_size(capacity: Option<u64>, given: Option<u64>) -> (r: Result<u64, ArgumentError>)
    ensures
        r == block_size_of(capacity, given),
{
    match (capacity, given) {
        (_, None) => Ok(BLOCK_SIZE_MIB),
        (Some(_), Some(mib)) => Ok(mib),
        (None, Some(_)) => Err(ArgumentError::MissingCapacity),
    }
}

/// `at` is the first place of `c` in `s`.
pub open spec fn first_at(s: Seq<char>, c: char, at: int) -> bool {
    &&& 0 <= at < s.len()
    &&& s[at] == c
    &&& forall|k: int| 0 <= k < at ==> #[trigger] s[k] != c
}

/// Splits a text at the first `delimiter`, which is left out: what comes before
/// it and what comes behind it, or nothing if it does not occur.
fn split_once(value: &str, delimiter: char) -> (r: Option<(String, String)>)
    ensures
        r matches Some(p) ==> first_at(value@, delimiter, p.0@.len() as int),
        r matches Some(p) ==> p.0@ == value@.take(p.0@.len() as int),
        r matches Some(p) ==> p.1@ == value@.skip(p.0@.len() as int + 1),
        r is None ==> !value@.contains(delimiter),
{
    let count: usize = value.unicode_len();
    let mut at: usize = 0;
    while at < count
        invariant
            at <= count,
            count == value@.len(),
            forall|k: int| 0 <= k < at ==> #[trigger] value@[k] != delimiter,
        decreases count - at,
    {
        if value.get_char(at) == delimiter {
            let before: String = value.substring_char(0, at).to_owned();
            let behind: String = value.substring_char(at + 1, count).to_owned();
            assert(before@ =~= value@.take(at as int));
            assert(behind@ =~= value@.skip(at as int + 1));
            return Some((before, behind));
        }
        at = at + 1;
    }
    None
}

/// `n` in base ten, without leading zeros.
pub open spec fn decimal(n: usize) -> Seq<char>
    decreases n,
{
    if n < 10 {
        seq![hex_digit(n as int)]
    } else {
        decimal(n / 10).push(hex_digit((n % 10) as int))
    }
}

fn decimal_text(n: usize) -> (r: String)
    ensures
        r@ == decimal(n),
    decreases n,
{
    if n < 10 {
        digit_text(n as u64).to_owned()
    } else {
        let mut s: String = decimal_text(n / 10);
        s.append(digit_text((n % 10) as u64));
        assert(s@ =~= decimal(n));
        s
    }
}

/// Name and path of the argument number `index`: what stands before and behind
/// the first equals sign, or a name of the number and the whole.
pub open spec fn parts(value: Seq<char>, index: int) -> (Seq<char>, Seq<char>) {
    if value.contains('=') {
        let at = choose|at: int| first_at(value, '=', at);
        (value.take(at), value.skip(at + 1))
    } else {
        ("disk"@ + decimal(index as usize), value)
    }
}

/// The name of the argument number `i`.
#[verifier::opaque]
pub open spec fn disk_name(values: Seq<String>, i: int) -> Seq<char> {
    parts(values[i]@, i).0
}

/// The path of the argument number `i`.
#[verifier::opaque]
pub open spec fn disk_path(values: Seq<String>, i: int) -> Seq<char> {
    parts(values[i]@, i).1
}

/// One of the first `n` arguments has this name.
pub open spec fn known(values: Seq<String>, n: int, name: Seq<char>) -> bool {
    exists|k: int| 0 <= k < n && #[trigger] disk_name(values, k) == name
}

/// The argument number `i` names a disk of its own with a path.
pub open spec fn acceptable(values: Seq<String>, i: int) -> bool {
    disk_path(values, i).len() > 0 && !known(values, i, disk_name(values, i))
}

/// `list` holds a disk of this name and path.
pub open spec fn listed(list: Seq<(String, String)>, name: Seq<char>, path: Seq<char>) -> bool {
    exists|j: int| 0 <= j < list.len() && (#[trigger] list[j]).0@ == name && list[j].1@ == path
}

/// `list` holds exactly the disks of the first `n` arguments.
pub open spec fn holds(list: Seq<(String, String)>, values: Seq<String>, n: int) -> bool {
    &&& list.len() == n
    &&& forall|i: int|
        0 <= i < n ==> listed(list, #[trigger] disk_name(values, i), disk_path(values, i))
    &&& forall|j: int| 0 <= j < list.len() ==> known(values, n, (#[trigger] list[j]).0@)
}

/// Name and path of one argument.
fn split_argument(value: &String, index: usize) -> (r: (String, String))
    ensures
        (r.0@, r.1@) == parts(value@, index as int),
{
    match split_once(value.as_str(), '=') {
        Some(p) => {
            proof {
                let at = p.0@.len() as int;
                assert(first_at(value@, '=', at));
                assert(value@.contains('='));
                let chosen = choose|at: int| first_at(value@, '=', at);
                assert(first_at(value@, '=', chosen));
                assert(at == chosen) by {
                    if at < chosen {
                        assert(value@[at] != '=');
                    } else if chosen < at {
                        assert(value@[chosen] != '=');
                    }
                }
            }
            p
        },
        None => {
            let mut name: String = "disk".to_owned();
            let digits: String = decimal_text(index);
            name.append(digits.as_str());
            (name, value.clone())
        },
    }
}

proof fn lemma_listed_grows(
    before: Seq<(String, String)>,
    after: Seq<(String, String)>,
    k: int,
    entry: (String, String),
    name: Seq<char>,
    path: Seq<char>,
)
    requires
        0 <= k <= before.len(),
        after == before.insert(k, entry),
        listed(before, name, path),
    ensures
        listed(after, name, path),
{
    let j = choose|j: int|
        0 <= j < before.len() && (#[trigger] before[j]).0@ == name && before[j].1@ == path;
    if j < k {
        assert(after[j] == before[j]);
    } else {
        assert(after[j + 1] == before[j]);
    }
}

/// A name that is new can be added.
proof fn lemma_added(
    before: Seq<(String, String)>,
    after: Seq<(String, String)>,
    k: int,
    entry: (String, String),
    values: Seq<String>,
    n: int,
)
    requires
        0 <= n,
        0 <= k <= before.len(),
        after == before.insert(k, entry),
        holds(before, values, n),
        entry.0@ == disk_name(values, n),
        entry.1@ == disk_path(values, n),
    ensures
        holds(after, values, n + 1),
{
    assert forall|m: int| 0 <= m < n + 1 implies listed(
        after,
        #[trigger] disk_name(values, m),
        disk_path(values, m),
    ) by {
        if m == n {
            assert(after[k] == entry);
        } else {
            lemma_listed_grows(
                before,
                after,
                k,
                entry,
                disk_name(values, m),
                disk_path(values, m),
            );
        }
    }
    assert forall|j: int| 0 <= j < after.len() implies known(
        values,
        n + 1,
        (#[trigger] after[j]).0@,
    ) by {
        if j == k {
            assert(after[j] == entry);
            assert(disk_name(values, n) == after[j].0@);
        } else {
            let former = if j < k {
                j
            } else {
                j - 1
            };
            assert(after[j] == before[former]);
            assert(known(values, n, before[former].0@));
        }
    }
}

proof fn lemma_unknown(
    list: Seq<(String, String)>,
    values: Seq<String>,
    n: int,
    name: Seq<char>,
)
    requires
        holds(list, values, n),
        forall|i: int|
            0 <= i < list.len() ==> name_bytes((#[trigger] list[i]).0) != encode_utf8(name),
    ensures
        !known(values, n, name),
{
    if known(values, n, name) {
        let m = choose|m: int| 0 <= m < n && #[trigger] disk_name(values, m) == name;
        assert(listed(list, disk_name(values, m), disk_path(values, m)));
        let j = choose|j: int|
            0 <= j < list.len() && (#[trigger] list[j]).0@ == name && list[j].1@ == disk_path(
                values,
                m,
            );
        assert(name_bytes(list[j].0) == encode_utf8(name));
    }
}

proof fn lemma_same_bytes(a: Seq<char>, b: Seq<char>)
    requires
        encode_utf8(a) == encode_utf8(b),
    ensures
        a == b,
{
    encode_utf8_decode_utf8(a);
    encode_utf8_decode_utf8(b);
}

/// The disks that the arguments name, in name order. The first argument without
/// a path, or with a name that came before, is an error.
pub fn disk_paths(disks: Vec<String>) -> (r: Result<Disks<String>, ArgumentError>)
    ensures
        r is Ok <==> forall|i: int| 0 <= i < disks@.len() ==> #[trigger] acceptable(disks@, i),
        r matches Ok(d) ==> holds(d.list(), disks@, disks@.len() as int) && in_name_order(d.list()),
        r matches Err(e) ==> exists|i: int|
            0 <= i < disks@.len() && !#[trigger] acceptable(disks@, i) && (forall|k: int|
                0 <= k < i ==> #[trigger] acceptable(disks@, k)) && if disk_path(
                disks@,
                i,
            ).len() == 0 {
                e is EmptyDiskPath && e->EmptyDiskPath_name@ == disk_name(disks@, i)
            } else {
                e is DuplicateDisk && e->DuplicateDisk_name@ == disk_name(disks@, i)
            },
{
    let mut paths: Disks<String> = Disks::new();
    let mut i: usize = 0;
    while i < disks.len()
        invariant
            i <= disks@.len(),
            forall|k: int| 0 <= k < i ==> #[trigger] acceptable(disks@, k),
            holds(paths.list(), disks@, i as int),
            in_name_order(paths.list()),
        decreases disks@.len() - i,
    {
        let (name, path): (String, String) = split_argument(&disks[i], i);
        proof {
            reveal(disk_name);
            reveal(disk_path);
        }
        assert(name@ == disk_name(disks@, i as int));
        assert(path@ == disk_path(disks@, i as int));
        if path.as_str().is_empty() {
            assert(!acceptable(disks@, i as int));
            return Err(ArgumentError::EmptyDiskPath { name });
        }
        let copy: String = name.clone();
        let ghost before = paths.list();
        let ghost entry = (name, path);
        match paths.insert(name, path) {
            Some(_) => {
                proof {
                    let k = choose|k: int|
                        0 <= k < before.len() && name_bytes((#[trigger] before[k]).0)
                            == name_bytes(entry.0);
                    lemma_same_bytes(before[k].0@, entry.0@);
                    assert(known(disks@, i as int, before[k].0@));
                    assert(!acceptable(disks@, i as int));
                }
                return Err(ArgumentError::DuplicateDisk { name: copy });
            },
            None => {
                proof {
                    let k = choose|k: int|
                        0 <= k <= before.len() && paths.list() == #[trigger] before.insert(
                            k,
                            entry,
                        );
                    lemma_unknown(before, disks@, i as int, entry.0@);
                    lemma_added(before, paths.list(), k, entry, disks@, i as int);
                    assert(acceptable(disks@, i as int));
                }
            },
        }
        i = i + 1;
    }
    Ok(paths)
}

} // verus!
