//! Limits that a machine and its memory keep to.
use crate::arm64::hvf::{irqs_checked, redistributors_checked};
use crate::boot::{dtb_checked, range_checked, VirtioRegion};
use crate::cli::{block_size_of, decimal, parts};
use crate::devices::memory::{alignment_of, made, MemView};
use crate::disks::before;
use crate::error::MemoryError;
use crate::guest::{fits, holds, mapped, ordered};
use crate::math::is_pow2;
use crate::platform::DeviceRequirements;
use crate::runtime::needs_rel;
use crate::terminal::{first_key, wake_of, Notice};
use vstd::arithmetic::power2::pow2;
use vstd::prelude::*;

verus! {

/// The host's interrupt controller does for a machine if it has interrupt 33, of
/// the serial port, and that of every device.
pub proof fn controllers_have_every_interrupt(base: u32, count: u32, regions: Seq<VirtioRegion>)
    ensures
        irqs_checked(base, count, regions) is Ok <==> base + count <= u32::MAX && base <= 33 < base
            + count && forall|i: int|
            0 <= i < regions.len() ==> base <= (#[trigger] regions[i]).irq < base + count,
{
}

/// The redistributors of the controller lie below the memory, which starts at
/// 0x40000000.
pub proof fn redistributors_lie_below_memory(size: u64)
    ensures
        redistributors_checked(size) is Ok <==> 0x1000_0000 + size <= 0x4000_0000,
        redistributors_checked(size) matches Ok(n) ==> n == size,
{
}

/// A range is taken if each of its addresses has at most so many bits as the host
/// can map, and its end can be told.
pub proof fn ranges_fit_the_host(start: u64, size: u64, bits: u32)
    ensures
        range_checked(start, size, bits) is Ok <==> 1 <= bits <= 64 && start + size <= u64::MAX
            && start + size <= pow2(bits as nat),
{
    vstd::arithmetic::power2::lemma2_to64();
}

/// A description of the machine is taken if it fits in 2 MiB.
pub proof fn descriptions_fit_their_space(length: usize)
    ensures
        dtb_checked(length) is Ok <==> length <= 2 * 1024 * 1024,
{
}

/// Memory that can be plugged is made of blocks whose size is a power of two, and
/// of as many as make whole sections of 128 MiB, by which a guest counts its
/// memory. It starts with nothing plugged and nothing asked for.
pub proof fn regions_are_made_of_sections(region: u64, block: u64)
    ensures
        made(region, block) is Ok <==> is_pow2(block as int) && region > 0 && region % block == 0
            && region % 128 == 0 && region * 0x10_0000 <= u64::MAX && block * 0x10_0000
            <= usize::MAX,
        made(region, block) matches Ok(d) ==> {
            &&& d.capacity == region * 0x10_0000
            &&& d.block == block * 0x10_0000
            &&& d.requested == 0
            &&& d.plugged == 0
            &&& !d.ready
            &&& d.blocks == Set::<u64>::empty()
            &&& d.start == 0
        },
        made(region, block) matches Err(MemoryError::InvalidBlockSize { mib }) ==> mib == block
            && !is_pow2(block as int),
        made(region, block) matches Err(MemoryError::InvalidRegionSize { mib }) ==> mib == region,
{
    assert(crate::memory::MIB == 0x10_0000);
    if is_pow2(block as int) {
        crate::memory::lemma_block_positive(block);
        lemma_sections(block, region);
        if block >= 128 && region % block == 0 {
            assert(block * 0x10_0000 <= region * 0x10_0000 || region == 0) by {
                if region > 0 && region < block {
                    vstd::arithmetic::div_mod::lemma_small_mod(region as nat, block as nat);
                }
            }
        }
    }
}

/// Of two powers of two, the larger is a multiple of the smaller.
proof fn lemma_sections(block: u64, region: u64)
    requires
        is_pow2(block as int),
        block > 0,
    ensures
        block < 128 ==> (region % 128 == 0 ==> region % block == 0),
        block >= 128 ==> (region % block == 0 ==> region % 128 == 0),
{
    let k = choose|k: nat| block == #[trigger] pow2(k);
    vstd::arithmetic::power2::lemma2_to64();
    if k < 7 {
        assert(k == 0 || k == 1 || k == 2 || k == 3 || k == 4 || k == 5 || k == 6);
        assert(block == 1 || block == 2 || block == 4 || block == 8 || block == 16 || block == 32
            || block == 64);
        if block == 1 {
            assert(region % 1 == 0);
        } else if block == 2 {
            assert(region % 128 == 0 ==> region % 2 == 0);
        } else if block == 4 {
            assert(region % 128 == 0 ==> region % 4 == 0);
        } else if block == 8 {
            assert(region % 128 == 0 ==> region % 8 == 0);
        } else if block == 16 {
            assert(region % 128 == 0 ==> region % 16 == 0);
        } else if block == 32 {
            assert(region % 128 == 0 ==> region % 32 == 0);
        } else {
            assert(region % 128 == 0 ==> region % 64 == 0);
        }
    } else {
        let j = (k - 7) as nat;
        vstd::arithmetic::power2::lemma_pow2_adds(7, j);
        vstd::arithmetic::power2::lemma_pow2_pos(j);
        let b = block as int;
        let q = region as int / b;
        assert(b == 128 * pow2(j));
        assert(b >= 128) by (nonlinear_arith)
            requires
                b == 128 * pow2(j),
                pow2(j) >= 1,
        ;
        vstd::arithmetic::div_mod::lemma_fundamental_div_mod(region as int, b);
        if region % block == 0 {
            assert(region == (pow2(j) * q) * 128) by (nonlinear_arith)
                requires
                    region == b * q,
                    b == 128 * pow2(j),
            ;
            vstd::arithmetic::div_mod::lemma_mod_multiples_basic(pow2(j) * q, 128);
        }
    }
}

/// The region starts at a multiple of its block and of a section, whichever is
/// larger, and the machine is asked for that.
pub proof fn regions_start_at_sections<BS>(
    disks: Seq<(String, BS)>,
    net: bool,
    memory: Option<MemView>,
    needs: DeviceRequirements,
)
    requires
        needs_rel(disks, net, memory, needs),
    ensures
        needs.hotplug is Some <==> memory is Some,
        memory matches Some(d) ==> {
            let n = needs.hotplug->0;
            &&& n.capacity == d.capacity
            &&& n.alignment >= d.block
            &&& n.alignment >= 128 * 1024 * 1024
            &&& n.alignment == d.block || n.alignment == 128 * 1024 * 1024
            &&& n.alignment == alignment_of(d.block)
        },
{
    assert(crate::memory::MIB == 0x10_0000);
}

/// A machine is asked for its devices in order: the disks, then the network
/// interface, then the memory.
pub proof fn devices_are_asked_for_in_order<BS>(
    disks: Seq<(String, BS)>,
    net: bool,
    memory: Option<MemView>,
    needs: DeviceRequirements,
)
    requires
        needs_rel(disks, net, memory, needs),
    ensures
        ({
            let list = needs.devices@;
            let n = disks.len() as int;
            &&& forall|i: int| 0 <= i < n ==> (#[trigger] list[i]) is Block
            &&& net ==> list.len() > n && list[n] is Net
            &&& memory is Some ==> list.len() > n && list[list.len() - 1] is Memory
            &&& list.len() == n + (if net {
                1int
            } else {
                0int
            }) + (if memory is Some {
                1int
            } else {
                0int
            })
        }),
{
    let list = needs.devices@;
    assert forall|i: int| 0 <= i < disks.len() implies (#[trigger] list[i]) is Block by {
        assert(list[i] is Block);
    }
}

/// What a text in base ten says.
pub open spec fn counted(text: Seq<char>) -> int
    decreases text.len(),
{
    if text.len() == 0 {
        0
    } else {
        10 * counted(text.drop_last()) + (text.last() as int - '0' as int)
    }
}

proof fn lemma_decimal(n: usize)
    ensures
        counted(decimal(n)) == n,
        decimal(n).len() > 0,
        forall|i: int| 0 <= i < decimal(n).len() ==> '0' <= #[trigger] decimal(n)[i] <= '9',
    decreases n,
{
    reveal_with_fuel(counted, 2);
    if n >= 10 {
        lemma_decimal(n / 10);
        assert(decimal(n).drop_last() =~= decimal(n / 10));
        assert forall|i: int| 0 <= i < decimal(n).len() implies '0' <= #[trigger] decimal(n)[i]
            <= '9' by {
            if i < decimal(n).len() - 1 {
                assert(decimal(n)[i] == decimal(n / 10)[i]);
            }
        }
    }
}

/// A disk is given as a name, a sign and a path; the first sign parts them. A path
/// alone gets a name after its place.
pub proof fn disks_are_named(value: Seq<char>, index: usize, at: int)
    ensures
        0 <= at < value.len() && value[at] == '=' && (forall|k: int|
            0 <= k < at ==> #[trigger] value[k] != '=') ==> parts(value, index as int) == (
            value.take(at),
            value.skip(at + 1),
        ),
        (forall|k: int| 0 <= k < value.len() ==> #[trigger] value[k] != '=') ==> {
            let (name, path) = parts(value, index as int);
            &&& path == value
            &&& name.len() > 4
            &&& name.take(4) == "disk"@
            &&& counted(name.skip(4)) == index
        },
{
    reveal_strlit("disk");
    if 0 <= at < value.len() && value[at] == '=' && (forall|k: int|
        0 <= k < at ==> #[trigger] value[k] != '=') {
        assert(value.contains('='));
        let x = choose|x: int| crate::cli::first_at(value, '=', x);
        assert(crate::cli::first_at(value, '=', at));
        assert(x == at) by {
            if x < at {
                assert(value[x] != '=');
            } else if at < x {
                assert(value[at] != '=');
            }
        }
    }
    if forall|k: int| 0 <= k < value.len() ==> #[trigger] value[k] != '=' {
        assert(!value.contains('='));
        lemma_decimal(index);
        let name = "disk"@ + decimal(index);
        assert("disk"@.len() == 4);
        assert(name.take(4) =~= "disk"@);
        assert(name.skip(4) =~= decimal(index));
    }
}

/// Blocks are of 2 MiB, unless another size is given for memory that is there.
pub proof fn blocks_are_of_the_size_given(capacity: Option<u64>, given: Option<u64>)
    ensures
        given is None ==> block_size_of(capacity, given) == Ok::<u64, crate::cli::ArgumentError>(2),
        given is Some && capacity is Some ==> block_size_of(capacity, given) == Ok::<
            u64,
            crate::cli::ArgumentError,
        >(given->0),
        given is Some && capacity is None ==> block_size_of(capacity, given) is Err,
{
}

/// The key that stops the VM is the one with code 29; the VM is stopped by a byte
/// and by nothing else, and not while the terminal is being left.
pub proof fn the_stop_key_stops(input: Seq<u8>, at: int, notice: Notice, closing: bool)
    ensures
        first_key(input, at) <==> 0 <= at < input.len() && input[at] == 29 && forall|k: int|
            0 <= k < at ==> #[trigger] input[k] != 29,
        wake_of(notice, closing) is Stop <==> notice is Byte && !closing,
        wake_of(notice, closing) is Again <==> notice is Interrupted,
{
}

/// Names come in the order of their first byte that differs; where one ends first,
/// it comes first.
pub proof fn names_come_in_byte_order(a: Seq<u8>, b: Seq<u8>, k: int)
    requires
        0 <= k <= a.len(),
        k <= b.len(),
        a.take(k) == b.take(k),
    ensures
        k < a.len() && k < b.len() && a[k] != b[k] ==> (before(a, b) <==> a[k] < b[k]),
        k == a.len() ==> (before(a, b) <==> a.len() < b.len()),
        k == b.len() ==> !before(a, b),
    decreases k,
{
    if k > 0 {
        assert(a.take(k)[0] == a[0] && b.take(k)[0] == b[0]);
        assert(a.skip(1).take(k - 1) =~= a.take(k).skip(1));
        assert(b.skip(1).take(k - 1) =~= b.take(k).skip(1));
        names_come_in_byte_order(a.skip(1), b.skip(1), k - 1);
    }
}

/// Memory is added only where there is none yet.
pub proof fn memory_is_added_where_there_is_none(regions: Seq<(u64, u64)>, new: (u64, u64))
    requires
        ordered(regions),
        0 < new.1,
    ensures
        fits(regions, new) <==> forall|x: int| new.0 <= x < new.0 + new.1 ==> !#[trigger] mapped(
            regions,
            x,
        ),
{
    if fits(regions, new) {
        assert forall|x: int| new.0 <= x < new.0 + new.1 implies !#[trigger] mapped(regions, x) by {
            if mapped(regions, x) {
                let i = choose|i: int| 0 <= i < regions.len() && #[trigger] holds(regions[i], x);
                assert(regions[i].0 <= x);
            }
        }
    } else {
        let i = choose|i: int|
            0 <= i < regions.len() && !(new.0 + new.1 <= (#[trigger] regions[i]).0 || regions[i].0
                + regions[i].1 <= new.0);
        let x = if regions[i].0 <= new.0 {
            new.0 as int
        } else {
            regions[i].0 as int
        };
        assert(0 < regions[i].1);
        assert(holds(regions[i], x));
        assert(mapped(regions, x));
    }
}

} // verus!
