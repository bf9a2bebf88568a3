//! Flattened device trees: what is written, and the writer that does it.
use crate::bytes::be32;
use crate::error::BootError;
use vm_fdt::{Error as FdtFault, FdtWriter, FdtWriterNode};
use vstd::prelude::*;
use vstd::utf8::*;

verus! {

/// `vm_fdt::FdtWriter`, opaque; see [`fdt_written`].
#[verifier::external_type_specification]
#[verifier::external_body]
pub struct ExFdtWriter(FdtWriter);

/// `vm_fdt::FdtWriterNode`, opaque; see [`fdt_depth`].
#[verifier::external_type_specification]
#[verifier::external_body]
pub struct ExFdtWriterNode(FdtWriterNode);

/// `vm_fdt::Error`, opaque.
#[verifier::external_type_specification]
#[verifier::external_body]
pub struct ExFdtFault(FdtFault);

/// One step in writing a device tree.
pub enum Step {
    Begin { name: Seq<char> },
    End,
    Prop { name: Seq<char>, value: Seq<u8> },
}

/// The steps that a writer has taken.
pub uninterp spec fn fdt_written(writer: FdtWriter) -> Seq<Step>;

/// How deep an open node lies; the root lies at one.
pub uninterp spec fn fdt_depth(node: FdtWriterNode) -> int;

/// The blob of a tree that was written in these steps.
pub uninterp spec fn fdt_finished(steps: Seq<Step>) -> Seq<u8>;

/// How many nodes are open.
pub open spec fn depth(steps: Seq<Step>) -> int
    decreases steps.len(),
{
    if steps.len() == 0 {
        0
    } else {
        depth(steps.drop_last()) + match steps.last() {
            Step::Begin { .. } => 1int,
            Step::End => -1int,
            Step::Prop { .. } => 0int,
        }
    }
}

/// A node has ended since the last one began, so that no property can follow.
pub open spec fn ended(steps: Seq<Step>) -> bool
    decreases steps.len(),
{
    if steps.len() == 0 {
        false
    } else {
        match steps.last() {
            Step::Begin { .. } => false,
            Step::End => true,
            Step::Prop { .. } => ended(steps.drop_last()),
        }
    }
}

/// A letter or a digit.
pub open spec fn alphanumeric(c: char) -> bool {
    '0' <= c <= '9' || alphabetic(c)
}

/// A letter.
pub open spec fn alphabetic(c: char) -> bool {
    'a' <= c <= 'z' || 'A' <= c <= 'Z'
}

/// `c` may stand in the name of a node.
pub open spec fn node_char(c: char) -> bool {
    alphanumeric(c) || c == ',' || c == '.' || c == '_' || c == '+' || c == '-'
}

/// `c` may stand in the name of a property.
pub open spec fn prop_char(c: char) -> bool {
    node_char(c) || c == '?' || c == '#'
}

/// The name of a property.
pub open spec fn prop_name(s: Seq<char>) -> bool {
    0 < s.len() <= 31 && forall|i: int| 0 <= i < s.len() ==> prop_char(#[trigger] s[i])
}

/// The name of a node that carries no address.
pub open spec fn plain_name(s: Seq<char>) -> bool {
    &&& 0 < s.len() <= 31
    &&& alphabetic(s[0])
    &&& forall|i: int| 0 <= i < s.len() ==> node_char(#[trigger] s[i])
}

/// The name of a node: nothing, a plain name, or one with an address behind it.
pub open spec fn node_name(s: Seq<char>) -> bool {
    ||| s.len() == 0
    ||| plain_name(s)
    ||| exists|k: int|
        0 < k < s.len() && #[trigger] s[k] == '@' && plain_name(s.take(k)) && forall|i: int|
            k < i < s.len() ==> node_char(#[trigger] s[i])
}

/// The writer accepts `step` after `steps`.
pub open spec fn accepts(steps: Seq<Step>, step: Step) -> bool {
    match step {
        Step::Begin { name } => depth(steps) < 64 && node_name(name),
        Step::End => depth(steps) > 0,
        Step::Prop { name, value } => {
            &&& depth(steps) > 0
            &&& !ended(steps)
            &&& prop_name(name)
            &&& value.len() <= u32::MAX
            &&& steps.len() <= 0x400_0000
        },
    }
}

/// The most bytes that a step adds to the blob, the name of a property included.
pub open spec fn weight(step: Step) -> int {
    match step {
        Step::Begin { name } => 4 * name.len() + 8int,
        Step::End => 4,
        Step::Prop { name, value } => 4 * name.len() + 16int + value.len(),
    }
}

/// The most bytes that the steps add to the blob.
pub open spec fn total_weight(steps: Seq<Step>) -> int
    decreases steps.len(),
{
    if steps.len() == 0 {
        0
    } else {
        total_weight(steps.drop_last()) + weight(steps.last())
    }
}

/// The four big-endian bytes of `v`.
pub open spec fn be32_bytes(v: u32) -> Seq<u8> {
    seq![
        (v / 0x100_0000) as u8,
        (v / 0x1_0000 % 0x100) as u8,
        (v / 0x100 % 0x100) as u8,
        (v % 0x100) as u8,
    ]
}

/// The eight big-endian bytes of `v`.
pub open spec fn be64_bytes(v: u64) -> Seq<u8> {
    be32_bytes((v / 0x1_0000_0000) as u32) + be32_bytes((v % 0x1_0000_0000) as u32)
}

/// The big-endian bytes of each of `cells`.
pub open spec fn cells32(cells: Seq<u32>) -> Seq<u8>
    decreases cells.len(),
{
    if cells.len() == 0 {
        Seq::empty()
    } else {
        cells32(cells.drop_last()) + be32_bytes(cells.last())
    }
}

/// The big-endian bytes of each of `cells`.
pub open spec fn cells64(cells: Seq<u64>) -> Seq<u8>
    decreases cells.len(),
{
    if cells.len() == 0 {
        Seq::empty()
    } else {
        cells64(cells.drop_last()) + be64_bytes(cells.last())
    }
}

/// A property that holds text, with the zero that ends it.
pub open spec fn text_prop(name: Seq<char>, text: Seq<char>) -> Step {
    Step::Prop { name, value: encode_utf8(text).push(0) }
}

/// A property that holds a number.
pub open spec fn number_prop(name: Seq<char>, v: u32) -> Step {
    Step::Prop { name, value: be32_bytes(v) }
}

/// A property that holds a wide number.
pub open spec fn wide_prop(name: Seq<char>, v: u64) -> Step {
    Step::Prop { name, value: be64_bytes(v) }
}

/// A property that is only there.
pub open spec fn flag_prop(name: Seq<char>) -> Step {
    Step::Prop { name, value: Seq::empty() }
}

/// A property that holds numbers.
pub open spec fn numbers_prop(name: Seq<char>, cells: Seq<u32>) -> Step {
    Step::Prop { name, value: cells32(cells) }
}

/// A property that holds wide numbers.
pub open spec fn wides_prop(name: Seq<char>, cells: Seq<u64>) -> Step {
    Step::Prop { name, value: cells64(cells) }
}

/// The text holds no zero character.
pub open spec fn no_zero(text: Seq<char>) -> bool {
    forall|i: int| 0 <= i < text.len() ==> #[trigger] text[i] != '\0'
}

/// `vm_fdt::FdtWriter::new`: a writer that has taken no step. It does not fail.
#[verifier::external_body]
pub(crate) fn writer_new() -> (r: Result<FdtWriter, FdtFault>)
    ensures
        r is Ok,
        r matches Ok(w) ==> fdt_written(w) == Seq::<Step>::empty(),
{
    FdtWriter::new()
}

/// `vm_fdt::FdtWriter::begin_node`: opens a node. It fails where 64 nodes are
/// open or the name is none.
#[verifier::external_body]
pub(crate) fn writer_begin_node(w: &mut FdtWriter, name: &str) -> (r: Result<
    FdtWriterNode,
    FdtFault,
>)
    ensures
        accepts(fdt_written(*old(w)), (Step::Begin { name: name@ })) ==> r is Ok,
        r matches Ok(n) ==> fdt_written(*final(w)) == fdt_written(*old(w)).push(
            Step::Begin { name: name@ },
        ) && fdt_depth(n) == depth(fdt_written(*final(w))),
{
    w.begin_node(name)
}

/// `vm_fdt::FdtWriter::end_node`: closes a node, which must be the one that was
/// opened last of those still open.
#[verifier::external_body]
pub(crate) fn writer_end_node(w: &mut FdtWriter, node: FdtWriterNode) -> (r: Result<(), FdtFault>)
    ensures
        r is Ok <==> fdt_depth(node) == depth(fdt_written(*old(w))),
        r is Ok ==> fdt_written(*final(w)) == fdt_written(*old(w)).push(Step::End),
{
    w.end_node(node)
}

/// `vm_fdt::FdtWriter::property_string`: a property that holds text.
#[verifier::external_body]
pub(crate) fn writer_property_string(w: &mut FdtWriter, name: &str, text: &str) -> (r: Result<
    (),
    FdtFault,
>)
    ensures
        accepts(fdt_written(*old(w)), text_prop(name@, text@)) && no_zero(text@) ==> r is Ok,
        r is Ok ==> fdt_written(*final(w)) == fdt_written(*old(w)).push(text_prop(name@, text@)),
{
    w.property_string(name, text)
}

/// `vm_fdt::FdtWriter::property_u32`: a property that holds a number.
#[verifier::external_body]
pub(crate) fn writer_property_u32(w: &mut FdtWriter, name: &str, v: u32) -> (r: Result<
    (),
    FdtFault,
>)
    ensures
        accepts(fdt_written(*old(w)), number_prop(name@, v)) ==> r is Ok,
        r is Ok ==> fdt_written(*final(w)) == fdt_written(*old(w)).push(number_prop(name@, v)),
{
    w.property_u32(name, v)
}

/// `vm_fdt::FdtWriter::property_u64`: a property that holds a wide number.
#[verifier::external_body]
pub(crate) fn writer_property_u64(w: &mut FdtWriter, name: &str, v: u64) -> (r: Result<
    (),
    FdtFault,
>)
    ensures
        accepts(fdt_written(*old(w)), wide_prop(name@, v)) ==> r is Ok,
        r is Ok ==> fdt_written(*final(w)) == fdt_written(*old(w)).push(wide_prop(name@, v)),
{
    w.property_u64(name, v)
}

/// `vm_fdt::FdtWriter::property_null`: a property that is only there.
#[verifier::external_body]
pub(crate) fn writer_property_null(w: &mut FdtWriter, name: &str) -> (r: Result<(), FdtFault>)
    ensures
        accepts(fdt_written(*old(w)), flag_prop(name@)) ==> r is Ok,
        r is Ok ==> fdt_written(*final(w)) == fdt_written(*old(w)).push(flag_prop(name@)),
{
    w.property_null(name)
}

/// `vm_fdt::FdtWriter::property_array_u32`: a property that holds numbers.
#[verifier::external_body]
pub(crate) fn writer_property_array_u32(w: &mut FdtWriter, name: &str, cells: &[u32]) -> (r: Result<
    (),
    FdtFault,
>)
    ensures
        accepts(fdt_written(*old(w)), numbers_prop(name@, cells@)) ==> r is Ok,
        r is Ok ==> fdt_written(*final(w)) == fdt_written(*old(w)).push(
            numbers_prop(name@, cells@),
        ),
{
    w.property_array_u32(name, cells)
}

/// `vm_fdt::FdtWriter::property_array_u64`: a property that holds wide numbers.
#[verifier::external_body]
pub(crate) fn writer_property_array_u64(w: &mut FdtWriter, name: &str, cells: &[u64]) -> (r: Result<
    (),
    FdtFault,
>)
    ensures
        accepts(fdt_written(*old(w)), wides_prop(name@, cells@)) ==> r is Ok,
        r is Ok ==> fdt_written(*final(w)) == fdt_written(*old(w)).push(wides_prop(name@, cells@)),
{
    w.property_array_u64(name, cells)
}

/// `vm_fdt::FdtWriter::finish`: the blob of the tree. It fails where a node is
/// open or the blob is too large for its header, which a tree of less than
/// 4 GiB is not. The blob starts with the magic number and its own length, and
/// is at most 64 bytes longer than its steps.
#[verifier::external_body]
pub(crate) fn writer_finish(w: FdtWriter) -> (r: Result<Vec<u8>, FdtFault>)
    ensures
        depth(fdt_written(w)) == 0 && total_weight(fdt_written(w)) + 64 <= u32::MAX ==> r is Ok,
        r matches Ok(b) ==> {
            &&& b@ == fdt_finished(fdt_written(w))
            &&& depth(fdt_written(w)) == 0
            &&& 40 <= b@.len() <= total_weight(fdt_written(w)) + 64
            &&& be32(b@, 0) == 0xd00d_feed
            &&& be32(b@, 4) == b@.len()
        },
{
    w.finish()
}

/// Steps that a writer can always take.
pub const STEP_LIMIT: usize = 0x400_0000;

pub proof fn lemma_push(steps: Seq<Step>, step: Step)
    ensures
        depth(steps.push(step)) == depth(steps) + match step {
            Step::Begin { .. } => 1int,
            Step::End => -1int,
            Step::Prop { .. } => 0int,
        },
        ended(steps.push(step)) == match step {
            Step::Begin { .. } => false,
            Step::End => true,
            Step::Prop { .. } => ended(steps),
        },
        total_weight(steps.push(step)) == total_weight(steps) + weight(step),
{
    assert(steps.push(step).drop_last() =~= steps);
}

pub proof fn lemma_weight_concat(a: Seq<Step>, b: Seq<Step>)
    ensures
        total_weight(a + b) == total_weight(a) + total_weight(b),
    decreases b.len(),
{
    if b.len() == 0 {
        assert(a + b =~= a);
    } else {
        assert((a + b).drop_last() =~= a + b.drop_last());
        lemma_weight_concat(a, b.drop_last());
    }
}

/// A character takes at most four bytes.
pub proof fn lemma_utf8_len(s: Seq<char>)
    ensures
        encode_utf8(s).len() <= 4 * s.len(),
    decreases s.len(),
{
    if s.len() > 0 {
        lemma_utf8_len(s.drop_first());
        assert(encode_scalar(s[0] as u32).len() <= 4);
    }
}

pub proof fn lemma_cells32_len(cells: Seq<u32>)
    ensures
        cells32(cells).len() == 4 * cells.len(),
    decreases cells.len(),
{
    if cells.len() > 0 {
        lemma_cells32_len(cells.drop_last());
    }
}

pub proof fn lemma_cells64_len(cells: Seq<u64>)
    ensures
        cells64(cells).len() == 8 * cells.len(),
    decreases cells.len(),
{
    if cells.len() > 0 {
        lemma_cells64_len(cells.drop_last());
    }
}

/// What taking one step with `w0` led to.
pub open spec fn took(w0: FdtWriter, w1: FdtWriter, step: Step, ok: bool) -> bool {
    &&& fdt_written(w0).len() < STEP_LIMIT ==> ok
    &&& ok ==> fdt_written(w1) == fdt_written(w0).push(step)
}

/// A property can be written next, `d` nodes deep.
pub open spec fn inside(w: FdtWriter, d: int) -> bool {
    depth(fdt_written(w)) == d && !ended(fdt_written(w)) && d > 0
}

/// Opens a node.
pub fn begin(w: &mut FdtWriter, name: &str) -> (r: Result<FdtWriterNode, BootError>)
    requires
        node_name(name@),
        0 <= depth(fdt_written(*old(w))) < 64,
    ensures
        r matches Ok(n) ==> {
            &&& fdt_written(*final(w)) == fdt_written(*old(w)).push(Step::Begin { name: name@ })
            &&& inside(*final(w), depth(fdt_written(*old(w))) + 1)
            &&& fdt_depth(n) == depth(fdt_written(*old(w))) + 1
        },
        r is Ok,
{
    proof {
        lemma_push(fdt_written(*w), Step::Begin { name: name@ });
    }
    match writer_begin_node(w, name) {
        Ok(node) => Ok(node),
        Err(_) => Err(BootError::Fdt),
    }
}

/// Closes a node.
pub fn end(w: &mut FdtWriter, node: FdtWriterNode) -> (r: Result<(), BootError>)
    requires
        fdt_depth(node) == depth(fdt_written(*old(w))),
    ensures
        r is Ok,
        fdt_written(*final(w)) == fdt_written(*old(w)).push(Step::End),
        depth(fdt_written(*final(w))) == depth(fdt_written(*old(w))) - 1,
{
    proof {
        lemma_push(fdt_written(*w), Step::End);
    }
    match writer_end_node(w, node) {
        Ok(_) => Ok(()),
        Err(_) => Err(BootError::Fdt),
    }
}

/// Writes a property that holds text.
pub fn text(w: &mut FdtWriter, name: &str, value: &str) -> (r: Result<(), BootError>)
    requires
        depth(fdt_written(*old(w))) > 0,
        !ended(fdt_written(*old(w))),
        prop_name(name@),
        no_zero(value@),
        value@.len() <= 0x1_0000,
    ensures
        took(*old(w), *final(w), text_prop(name@, value@), r is Ok),
        r is Ok ==> inside(*final(w), depth(fdt_written(*old(w)))),
        r matches Err(e) ==> e is Fdt,
{
    proof {
        lemma_push(fdt_written(*w), text_prop(name@, value@));
        lemma_utf8_len(value@);
    }
    match writer_property_string(w, name, value) {
        Ok(_) => Ok(()),
        Err(_) => Err(BootError::Fdt),
    }
}

/// Writes a property that holds a number.
pub fn number(w: &mut FdtWriter, name: &str, value: u32) -> (r: Result<(), BootError>)
    requires
        depth(fdt_written(*old(w))) > 0,
        !ended(fdt_written(*old(w))),
        prop_name(name@),
    ensures
        took(*old(w), *final(w), number_prop(name@, value), r is Ok),
        r is Ok ==> inside(*final(w), depth(fdt_written(*old(w)))),
        r matches Err(e) ==> e is Fdt,
{
    proof {
        lemma_push(fdt_written(*w), number_prop(name@, value));
    }
    match writer_property_u32(w, name, value) {
        Ok(_) => Ok(()),
        Err(_) => Err(BootError::Fdt),
    }
}

/// Writes a property that holds a wide number.
pub fn wide(w: &mut FdtWriter, name: &str, value: u64) -> (r: Result<(), BootError>)
    requires
        depth(fdt_written(*old(w))) > 0,
        !ended(fdt_written(*old(w))),
        prop_name(name@),
    ensures
        took(*old(w), *final(w), wide_prop(name@, value), r is Ok),
        r is Ok ==> inside(*final(w), depth(fdt_written(*old(w)))),
        r matches Err(e) ==> e is Fdt,
{
    proof {
        lemma_push(fdt_written(*w), wide_prop(name@, value));
    }
    match writer_property_u64(w, name, value) {
        Ok(_) => Ok(()),
        Err(_) => Err(BootError::Fdt),
    }
}

/// Writes a property that is only there.
pub fn flag(w: &mut FdtWriter, name: &str) -> (r: Result<(), BootError>)
    requires
        depth(fdt_written(*old(w))) > 0,
        !ended(fdt_written(*old(w))),
        prop_name(name@),
    ensures
        took(*old(w), *final(w), flag_prop(name@), r is Ok),
        r is Ok ==> inside(*final(w), depth(fdt_written(*old(w)))),
        r matches Err(e) ==> e is Fdt,
{
    proof {
        lemma_push(fdt_written(*w), flag_prop(name@));
    }
    match writer_property_null(w, name) {
        Ok(_) => Ok(()),
        Err(_) => Err(BootError::Fdt),
    }
}

/// Writes a property that holds numbers.
pub fn numbers(w: &mut FdtWriter, name: &str, value: &[u32]) -> (r: Result<(), BootError>)
    requires
        depth(fdt_written(*old(w))) > 0,
        !ended(fdt_written(*old(w))),
        prop_name(name@),
        value@.len() <= 0x1_0000,
    ensures
        took(*old(w), *final(w), numbers_prop(name@, value@), r is Ok),
        r is Ok ==> inside(*final(w), depth(fdt_written(*old(w)))),
        r matches Err(e) ==> e is Fdt,
{
    proof {
        lemma_push(fdt_written(*w), numbers_prop(name@, value@));
        lemma_cells32_len(value@);
    }
    match writer_property_array_u32(w, name, value) {
        Ok(_) => Ok(()),
        Err(_) => Err(BootError::Fdt),
    }
}

/// Writes a property that holds wide numbers.
pub fn wides(w: &mut FdtWriter, name: &str, value: &[u64]) -> (r: Result<(), BootError>)
    requires
        depth(fdt_written(*old(w))) > 0,
        !ended(fdt_written(*old(w))),
        prop_name(name@),
        value@.len() <= 0x1_0000,
    ensures
        took(*old(w), *final(w), wides_prop(name@, value@), r is Ok),
        r is Ok ==> inside(*final(w), depth(fdt_written(*old(w)))),
        r matches Err(e) ==> e is Fdt,
{
    proof {
        lemma_push(fdt_written(*w), wides_prop(name@, value@));
        lemma_cells64_len(value@);
    }
    match writer_property_array_u64(w, name, value) {
        Ok(_) => Ok(()),
        Err(_) => Err(BootError::Fdt),
    }
}

/// The digit of `d` in base sixteen.
pub open spec fn hex_digit(d: int) -> char {
    if d < 10 {
        (0x30 + d) as char
    } else {
        (0x57 + d) as char
    }
}

/// `n` in base sixteen, in lower case and without leading zeros.
pub open spec fn hex(n: u64) -> Seq<char>
    decreases n,
{
    if n < 16 {
        seq![hex_digit(n as int)]
    } else {
        hex(n / 16).push(hex_digit((n % 16) as int))
    }
}

/// The digits may stand in a name, and there are at most sixteen.
pub proof fn lemma_hex(n: u64)
    ensures
        forall|i: int| 0 <= i < hex(n).len() ==> node_char(#[trigger] hex(n)[i]),
        0 < hex(n).len() <= 16,
{
    assert(vstd::arithmetic::power::pow(16, 16) == 0x1_0000_0000_0000_0000) by {
        reveal(vstd::arithmetic::power::pow);
        reveal_with_fuel(vstd::arithmetic::power::pow, 17);
    }
    lemma_hex_digits(n, 16);
}

proof fn lemma_hex_digits(n: u64, k: nat)
    requires
        0 < k <= 16,
        n < vstd::arithmetic::power::pow(16, k),
    ensures
        forall|i: int| 0 <= i < hex(n).len() ==> node_char(#[trigger] hex(n)[i]),
        0 < hex(n).len() <= k,
    decreases k,
{
    reveal(vstd::arithmetic::power::pow);
    assert(forall|d: int| 0 <= d < 16 ==> node_char(#[trigger] hex_digit(d)));
    if n >= 16 {
        let q = vstd::arithmetic::power::pow(16, (k - 1) as nat);
        assert(vstd::arithmetic::power::pow(16, k) == 16 * q);
        if k == 1 {
            assert(q == 1);
        }
        lemma_hex_digits(n / 16, (k - 1) as nat);
        let rest = hex(n / 16);
        assert forall|i: int| 0 <= i < hex(n).len() implies node_char(#[trigger] hex(n)[i]) by {
            if i < rest.len() {
                assert(hex(n)[i] == rest[i]);
            }
        }
    }
}

/// One digit in base sixteen.
pub fn digit_text(d: u64) -> (r: &'static str)
    requires
        d < 16,
    ensures
        r@ == seq![hex_digit(d as int)],
{
    proof {
        reveal_strlit("0");
        reveal_strlit("1");
        reveal_strlit("2");
        reveal_strlit("3");
        reveal_strlit("4");
        reveal_strlit("5");
        reveal_strlit("6");
        reveal_strlit("7");
        reveal_strlit("8");
        reveal_strlit("9");
        reveal_strlit("a");
        reveal_strlit("b");
        reveal_strlit("c");
        reveal_strlit("d");
        reveal_strlit("e");
        reveal_strlit("f");
    }
    let r: &'static str = match d {
        0 => "0",
        1 => "1",
        2 => "2",
        3 => "3",
        4 => "4",
        5 => "5",
        6 => "6",
        7 => "7",
        8 => "8",
        9 => "9",
        10 => "a",
        11 => "b",
        12 => "c",
        13 => "d",
        14 => "e",
        _ => "f",
    };
    assert(r@ =~= seq![hex_digit(d as int)]);
    r
}

/// `n` in base sixteen, in lower case and without leading zeros.
pub fn hex_text(n: u64) -> (r: String)
    ensures
        r@ == hex(n),
    decreases n,
{
    if n < 16 {
        digit_text(n).to_owned()
    } else {
        let mut s: String = hex_text(n / 16);
        s.append(digit_text(n % 16));
        assert(s@ =~= hex(n));
        s
    }
}

/// A name with an address behind it.
pub fn unit_name(prefix: &str, address: u64) -> (r: String)
    ensures
        r@ == prefix@ + hex(address),
{
    let mut s: String = prefix.to_owned();
    let digits: String = hex_text(address);
    s.append(digits.as_str());
    s
}

/// A plain name, the sign and an address make the name of a node.
pub proof fn lemma_unit_name(plain: Seq<char>, prefix: Seq<char>, n: u64)
    requires
        plain_name(plain),
        prefix == plain.push('@'),
    ensures
        node_name(prefix + hex(n)),
{
    let s = prefix + hex(n);
    let k = plain.len() as int;
    lemma_hex(n);
    assert(s[k] == '@');
    assert(s.take(k) =~= plain);
    assert forall|i: int| k < i < s.len() implies node_char(#[trigger] s[i]) by {
        assert(s[i] == hex(n)[i - prefix.len()]);
    }
}

} // verus!
