//! Which GID an endpoint uses.
//!
//! On SoftRoCE the kernel routes by GID index 0, whatever else the table of GIDs lists. On other
//! devices a GID that stands for an IPv4 address is preferred.

use vstd::prelude::*;

use crate::text;
use crate::text::{chars_of, parse_i32, starts_with, trim};

verus! {

/// The GID index where nothing says otherwise.
pub const DEFAULT_GID_INDEX: i32 = 0;

/// One entry of a device's table of GIDs: the name of the file, and what it holds, where it could
/// be read.
pub struct GidEntry {
    pub name: String,
    pub contents: Option<String>,
}

/// The GID of an entry, in small letters, and its index, where there are both.
pub open spec fn gid_of(entry: GidEntry) -> Option<(int, Seq<char>)> {
    match (text::signed32(entry.name@), entry.contents) {
        (Some(index), Some(contents)) => Some((index, text::lowered(text::trimmed(contents@)))),
        _ => None,
    }
}

/// Whether an entry is in use: it has an index and a GID, and the GID is not all zeros.
pub open spec fn in_use(entry: GidEntry) -> bool {
    gid_of(entry) matches Some((_, gid)) && gid != "0000:0000:0000:0000:0000:0000:0000:0000"@
}

/// Whether an entry is in use with a GID that stands for an IPv4 address.
pub open spec fn is_ipv4(entry: GidEntry) -> bool {
    in_use(entry) && text::begins_with(gid_of(entry)->Some_0.1, "0000:0000:0000:0000:0000:ffff:"@)
}

/// Whether `index` is that of the first entry for which `p` holds.
pub open spec fn first_index(
    entries: Seq<GidEntry>,
    p: spec_fn(GidEntry) -> bool,
    index: int,
) -> bool {
    exists|i: int|
        #![trigger entries[i]]
        0 <= i < entries.len() && p(entries[i]) && gid_of(entries[i])->Some_0.0 == index && forall|
            j: int,
        |
            0 <= j < i ==> !p(#[trigger] entries[j])
}

/// Whether `p` holds for no entry.
pub open spec fn nowhere(entries: Seq<GidEntry>, p: spec_fn(GidEntry) -> bool) -> bool {
    forall|i: int| 0 <= i < entries.len() ==> !p(#[trigger] entries[i])
}

/// Whether `choice` is the index of the first entry with an IPv4 address; where there is none, of
/// the first entry in use; and nothing where there is none either.
pub open spec fn chosen(entries: Seq<GidEntry>, choice: Option<i32>) -> bool {
    let ipv4 = |e: GidEntry| is_ipv4(e);
    let used = |e: GidEntry| in_use(e);
    match choice {
        Some(index) => if nowhere(entries, ipv4) {
            first_index(entries, used, index as int)
        } else {
            first_index(entries, ipv4, index as int)
        },
        None => nowhere(entries, used),
    }
}

/// Whether `c` is `small` or its capital.
fn lowers_to(c: char, small: char) -> (same: bool)
    ensures
        same == (text::lower(c) == small),
{
    if 'A' <= c && c <= 'Z' {
        c as u32 + 32 == small as u32
    } else {
        c == small
    }
}

/// Whether `chars`, in small letters, begins with `prefix`.
fn lowered_begins_with(chars: &Vec<char>, prefix: &Vec<char>) -> (yes: bool)
    ensures
        yes == text::begins_with(text::lowered(chars@), prefix@),
{
    let ghost low = text::lowered(chars@);
    if prefix.len() > chars.len() {
        return false;
    }
    let mut i: usize = 0;
    while i < prefix.len()
        invariant
            low == text::lowered(chars@),
            i <= prefix@.len() <= chars@.len(),
            forall|j: int| 0 <= j < i ==> low[j] == prefix@[j],
        decreases prefix@.len() - i,
    {
        if !lowers_to(chars[i], prefix[i]) {
            assert(low.take(prefix@.len() as int)[i as int] != prefix@[i as int]);
            return false;
        }
        i += 1;
    }
    assert(low.take(prefix@.len() as int) =~= prefix@);
    true
}

/// The index of an entry in use, and whether its GID stands for an IPv4 address.
fn inspect(entry: &GidEntry) -> (found: Option<(i32, bool)>)
    ensures
        match found {
            Some((index, ipv4)) => {
                &&& in_use(*entry)
                &&& index == gid_of(*entry)->Some_0.0
                &&& ipv4 == is_ipv4(*entry)
            },
            None => !in_use(*entry),
        },
{
    let index: i32 = match parse_i32(entry.name.as_str()) {
        Some(index) => index,
        None => {
            return None;
        },
    };
    let gid = match &entry.contents {
        Some(contents) => chars_of(trim(contents.as_str()).as_str()),
        None => {
            return None;
        },
    };
    let zero = chars_of("0000:0000:0000:0000:0000:0000:0000:0000");
    let ghost low = text::lowered(gid@);
    if gid.len() == zero.len() && lowered_begins_with(&gid, &zero) {
        assert(low.take(zero@.len() as int) =~= low);
        return None;
    }
    proof {
        if low == zero@ {
            assert(low.take(zero@.len() as int) =~= zero@);
        }
    }
    Some((index, lowered_begins_with(&gid, &chars_of("0000:0000:0000:0000:0000:ffff:"))))
}

/// Picks the GID index of the first entry with an IPv4 address, else of the first entry in use.
pub fn auto_gid_index(entries: &[GidEntry]) -> (choice: Option<i32>)
    ensures
        chosen(entries@, choice),
{
    let ghost ipv4 = |e: GidEntry| is_ipv4(e);
    let ghost used = |e: GidEntry| in_use(e);
    let mut first_used: Option<i32> = None;
    let mut i: usize = 0;
    while i < entries.len()
        invariant
            i <= entries@.len(),
            ipv4 == (|e: GidEntry| is_ipv4(e)),
            used == (|e: GidEntry| in_use(e)),
            forall|j: int| 0 <= j < i ==> !ipv4(#[trigger] entries@[j]),
            match first_used {
                Some(index) => first_index(entries@, used, index as int),
                None => forall|j: int| 0 <= j < i ==> !used(#[trigger] entries@[j]),
            },
        decreases entries@.len() - i,
    {
        if let Some((index, is_ipv4)) = inspect(&entries[i]) {
            assert(used(entries@[i as int]));
            if first_used.is_none() {
                first_used = Some(index);
            }
            if is_ipv4 {
                assert(ipv4(entries@[i as int]));
                return Some(index);
            }
        }
        i += 1;
    }
    first_used
}

/// Whether an RDMA device is a SoftRoCE device, which the kernel calls `rxe` and a number.
pub open spec fn is_soft_roce(device: Seq<char>) -> bool {
    text::begins_with(device, "rxe"@)
}

/// The GID index to use: the one that the environment names; else, on a SoftRoCE device, the
/// default, which is what the kernel routes by there; else the one that the entries suggest, or the
/// default where they suggest none.
pub fn gid_index(env: Option<&str>, device: &str, entries: &[GidEntry]) -> (index: i32)
    ensures
        match env {
            Some(s) if text::signed32(s@) is Some => index == text::signed32(s@)->Some_0,
            _ => if is_soft_roce(device@) {
                index == DEFAULT_GID_INDEX
            } else {
                chosen(entries@, Some(index)) || (chosen(entries@, None) && index
                    == DEFAULT_GID_INDEX)
            },
        },
        (env is None || text::signed32(env->Some_0@) is None) && (text::begins_with(
            device@,
            "rxe"@,
        ) || forall|i: int| 0 <= i < entries@.len() ==> !in_use(#[trigger] entries@[i])) ==> index
            == 0,
{
    if let Some(s) = env {
        if let Some(index) = parse_i32(s) {
            return index;
        }
    }
    if starts_with(device, "rxe") {
        return DEFAULT_GID_INDEX;
    }
    match auto_gid_index(entries) {
        Some(index) => index,
        None => DEFAULT_GID_INDEX,
    }
}

/// Which entries count: those with a number for a name whose text is a GID. Such an entry is in use
/// unless its GID, in small letters, is all zeros; one that begins as the GID of an IPv4 address
/// does is always in use.
pub proof fn law_entries_that_count(entry: GidEntry)
    ensures
        ({
            let named = text::signed32(entry.name@) is Some && entry.contents is Some;
            let gid = text::lowered(text::trimmed(entry.contents->Some_0@));
            &&& in_use(entry) <==> named && gid != "0000:0000:0000:0000:0000:0000:0000:0000"@
            &&& is_ipv4(entry) <==> named && text::begins_with(
                gid,
                "0000:0000:0000:0000:0000:ffff:"@,
            )
            &&& in_use(entry) ==> gid_of(entry) == Some((text::signed32(entry.name@)->Some_0, gid))
        }),
{
    reveal_strlit("0000:0000:0000:0000:0000:0000:0000:0000");
    reveal_strlit("0000:0000:0000:0000:0000:ffff:");
    let zero = "0000:0000:0000:0000:0000:0000:0000:0000"@;
    let mapped = "0000:0000:0000:0000:0000:ffff:"@;
    if text::begins_with(zero, mapped) {
        assert(zero.take(mapped.len() as int)[25] == mapped[25]);
    }
}

/// What is chosen: of the entries with an IPv4 address the first; where there is none, of the
/// entries in use the first; and nothing where none is in use.
pub proof fn law_the_first_entry_is_chosen(
    entries: Seq<GidEntry>,
    choice: Option<i32>,
    i: int,
)
    ensures
        0 <= i < entries.len() && is_ipv4(entries[i]) && (forall|j: int|
            0 <= j < i ==> !is_ipv4(#[trigger] entries[j])) ==> (chosen(entries, choice) <==> choice
            is Some && choice->Some_0 == text::signed32(entries[i].name@)->Some_0),
        (forall|j: int| 0 <= j < entries.len() ==> !is_ipv4(#[trigger] entries[j])) && 0 <= i
            < entries.len() && in_use(entries[i]) && (forall|j: int|
            0 <= j < i ==> !in_use(#[trigger] entries[j])) ==> (chosen(entries, choice) <==> choice
            is Some && choice->Some_0 == text::signed32(entries[i].name@)->Some_0),
        (forall|j: int| 0 <= j < entries.len() ==> !in_use(#[trigger] entries[j])) ==> (chosen(
            entries,
            choice,
        ) <==> choice is None),
{
    let ipv4 = |e: GidEntry| is_ipv4(e);
    let used = |e: GidEntry| in_use(e);
    assert forall|e: GidEntry| #[trigger] is_ipv4(e) implies in_use(e) by {}
    if 0 <= i < entries.len() && is_ipv4(entries[i]) && (forall|j: int|
        0 <= j < i ==> !is_ipv4(#[trigger] entries[j])) {
        assert(ipv4(entries[i]) && used(entries[i]));
        assert(!nowhere(entries, ipv4));
        assert(!nowhere(entries, used));
    }
    if (forall|j: int| 0 <= j < entries.len() ==> !is_ipv4(#[trigger] entries[j])) && 0 <= i
        < entries.len() && in_use(entries[i]) && (forall|j: int|
        0 <= j < i ==> !in_use(#[trigger] entries[j])) {
        assert(nowhere(entries, ipv4));
        assert(used(entries[i]));
        assert(!nowhere(entries, used));
    }
}

} // verus!
