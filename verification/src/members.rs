//! The members of a value, decoded one by one: the strings of a list, the
//! entries of a ziplist, the items of a zipmap, the integers of an intset.
use crate::errors::RdbError;
use crate::object::same_pos;
use crate::packed::{
    count_zipmap_items_from,
    int_text_at,
    intset_header_of,
    spec_count_zipmap_items,
    spec_int_text,
    spec_intset_header,
    spec_ziplist_entry,
    spec_ziplist_length,
    spec_zipmap_item,
    ziplist_entry_at,
    ziplist_length_of,
    zipmap_item_at,
};
use crate::wire::{
    length_at,
    spec_length,
    spec_string,
    spec_u8,
    string_at,
    u8_at,
    Parsed,
};
use vstd::prelude::*;

verus! {

/// How the members of a value are encoded.
#[derive(Clone, Copy, Debug, PartialEq, Eq, Structural)]
pub enum ItemKind {
    /// Strings of the snapshot format.
    Str,
    /// Entries of a ziplist.
    Ziplist,
    /// Items of a zipmap, in turn a field and a value.
    Zipmap,
    /// Integers of 2 bytes in an intset.
    Int16,
    /// Integers of 4 bytes in an intset.
    Int32,
    /// Integers of 8 bytes in an intset.
    Int64,
}

/// The views of a list of byte strings.
pub open spec fn items_view(v: Seq<Vec<u8>>) -> Seq<Seq<u8>> {
    v.map_values(|x: Vec<u8>| x@)
}

/// The member at `pos` that is number `index` of its value.
pub open spec fn spec_item(raw: Seq<u8>, pos: int, kind: ItemKind, index: nat) -> Parsed<Seq<u8>> {
    match kind {
        ItemKind::Str => spec_string(raw, pos),
        ItemKind::Ziplist => spec_ziplist_entry(raw, pos),
        ItemKind::Zipmap => spec_zipmap_item(raw, pos, index % 2 == 1),
        ItemKind::Int16 => spec_int_text(raw, pos, 2),
        ItemKind::Int32 => spec_int_text(raw, pos, 4),
        ItemKind::Int64 => spec_int_text(raw, pos, 8),
    }
}

/// The `count` members that begin at `pos`, of which the first is number
/// `index` of its value, and the position behind them.
pub open spec fn spec_items(raw: Seq<u8>, pos: int, kind: ItemKind, index: nat, count: nat)
    -> Parsed<Seq<Seq<u8>>>
    decreases count,
{
    if count == 0 {
        Ok((Seq::empty(), pos))
    } else {
        match spec_item(raw, pos, kind, index) {
            Err(e) => Err(e),
            Ok((first, at1)) => match spec_items(raw, at1, kind, index + 1, (count - 1) as nat) {
                Err(e) => Err(e),
                Ok((rest, next)) => Ok((seq![first] + rest, next)),
            },
        }
    }
}

/// A decoded list with the members `done` put before it.
pub open spec fn with_done(done: Seq<Seq<u8>>, r: Parsed<Seq<Seq<u8>>>) -> Parsed<Seq<Seq<u8>>> {
    match r {
        Ok((rest, next)) => Ok((done + rest, next)),
        Err(e) => Err(e),
    }
}

/// Whether an executable list of members is what the specification gives.
pub open spec fn same_items(r: Result<(Vec<Vec<u8>>, usize), RdbError>, want: Parsed<Seq<Seq<u8>>>)
    -> bool {
    match want {
        Ok((items, next)) => r matches Ok((got, at)) && items_view(got@) == items && at == next,
        Err(e) => r matches Err(x) && x == e,
    }
}

/// Whether an executable list of members is what the specification gives.
pub open spec fn same_members(r: Result<Vec<Vec<u8>>, RdbError>, want: Result<
    Seq<Seq<u8>>,
    RdbError,
>) -> bool {
    match want {
        Ok(items) => r matches Ok(got) && items_view(got@) == items,
        Err(e) => r matches Err(x) && x == e,
    }
}

/// Reads the member at `pos` that is number `index` of its value.
pub fn item_at(raw: &Vec<u8>, pos: usize, kind: ItemKind, index: u64) -> (r: Result<
    (Vec<u8>, usize),
    RdbError,
>)
    ensures
        crate::wire::same_bytes(r, spec_item(raw@, pos as int, kind, index as nat)),
        r matches Ok((_, next)) ==> pos < next <= raw.len(),
{
    match kind {
        ItemKind::Str => string_at(raw, pos),
        ItemKind::Ziplist => ziplist_entry_at(raw, pos),
        ItemKind::Zipmap => zipmap_item_at(raw, pos, index % 2 == 1),
        ItemKind::Int16 => int_text_at(raw, pos, 2),
        ItemKind::Int32 => int_text_at(raw, pos, 4),
        ItemKind::Int64 => int_text_at(raw, pos, 8),
    }
}

/// Reads the `count` members that begin at `pos`.
pub fn items_at(raw: &Vec<u8>, pos: usize, kind: ItemKind, count: u64) -> (r: Result<
    (Vec<Vec<u8>>, usize),
    RdbError,
>)
    ensures
        same_items(r, spec_items(raw@, pos as int, kind, 0, count as nat)),
{
    let ghost whole = spec_items(raw@, pos as int, kind, 0, count as nat);
    let mut out: Vec<Vec<u8>> = Vec::new();
    let mut at: usize = pos;
    let mut i: u64 = 0;
    proof {
        assert(items_view(out@) =~= Seq::<Seq<u8>>::empty());
        assert(with_done(items_view(out@), whole) =~= whole) by {
            match whole {
                Ok((rest, next)) => {
                    assert(Seq::<Seq<u8>>::empty() + rest =~= rest);
                },
                Err(e) => {},
            }
        }
    }
    while i < count
        invariant
            i <= count,
            whole == spec_items(raw@, pos as int, kind, 0, count as nat),
            whole == with_done(
                items_view(out@),
                spec_items(raw@, at as int, kind, i as nat, (count - i) as nat),
            ),
        decreases count - i,
    {
        let ghost done = items_view(out@);
        let (item, next) = item_at(raw, at, kind, i)?;
        proof {
            let tail = spec_items(raw@, next as int, kind, (i + 1) as nat, (count - i - 1) as nat);
            match tail {
                Ok((rest, end)) => {
                    assert(done + (seq![item@] + rest) =~= done.push(item@) + rest);
                },
                Err(e) => {},
            }
            assert(items_view(out@.push(item)) =~= done.push(item@));
        }
        out.push(item);
        at = next;
        i = i + 1;
    }
    proof {
        assert(items_view(out@) + Seq::<Seq<u8>>::empty() =~= items_view(out@));
    }
    Ok((out, at))
}

/// The entries of the ziplist `zl`: as many as it announces, or, where
/// `pairs` is set, as many as make whole pairs.
pub open spec fn spec_ziplist_members(zl: Seq<u8>, pairs: bool) -> Result<Seq<Seq<u8>>, RdbError> {
    match spec_ziplist_length(zl) {
        Err(e) => Err(e),
        Ok((n, start)) => {
            let count = if pairs {
                2 * (n / 2)
            } else {
                n as int
            };
            match spec_items(zl, start, ItemKind::Ziplist, 0, count as nat) {
                Err(e) => Err(e),
                Ok((items, _)) => Ok(items),
            }
        },
    }
}

/// The fields and values of the zipmap `zm`, in turn. Its first byte is the
/// number of pairs, or, from 254 on, the demand to count the items up to the
/// end marker.
pub open spec fn spec_zipmap_members(zm: Seq<u8>) -> Result<Seq<Seq<u8>>, RdbError> {
    match spec_u8(zm, 0) {
        Err(e) => Err(e),
        Ok((len_byte, start)) => {
            let pairs: Result<int, RdbError> = if len_byte >= 254 {
                match spec_count_zipmap_items(zm, start, 0) {
                    Err(e) => Err(e),
                    Ok(n) => Ok(n / 2),
                }
            } else {
                Ok(len_byte as int)
            };
            match pairs {
                Err(e) => Err(e),
                Ok(p) => match spec_items(zm, start, ItemKind::Zipmap, 0, (2 * p) as nat) {
                    Err(e) => Err(e),
                    Ok((items, _)) => Ok(items),
                },
            }
        },
    }
}

/// The kind of the members of an intset whose members are `width` bytes
/// wide.
pub open spec fn int_kind(width: u32) -> ItemKind {
    if width == 2 {
        ItemKind::Int16
    } else if width == 4 {
        ItemKind::Int32
    } else {
        ItemKind::Int64
    }
}

/// The members of the intset `set`, each as its decimal text.
pub open spec fn spec_intset_members(set: Seq<u8>) -> Result<Seq<Seq<u8>>, RdbError> {
    match spec_intset_header(set) {
        Err(e) => Err(e),
        Ok(((width, count), start)) => match spec_items(
            set,
            start,
            int_kind(width),
            0,
            count as nat,
        ) {
            Err(e) => Err(e),
            Ok((items, _)) => Ok(items),
        },
    }
}

/// The entries of the `count` ziplists that begin at `pos`, each stored as a
/// string, one ziplist after the other.
pub open spec fn spec_quicklist_members(raw: Seq<u8>, pos: int, count: nat) -> Result<
    Seq<Seq<u8>>,
    RdbError,
>
    decreases count,
{
    if count == 0 {
        Ok(Seq::empty())
    } else {
        match spec_string(raw, pos) {
            Err(e) => Err(e),
            Ok((zl, at1)) => match spec_ziplist_members(zl, false) {
                Err(e) => Err(e),
                Ok(first) => match spec_quicklist_members(raw, at1, (count - 1) as nat) {
                    Err(e) => Err(e),
                    Ok(rest) => Ok(first + rest),
                },
            },
        }
    }
}

/// Reads the entries of the ziplist `zl`.
pub fn ziplist_members(zl: &Vec<u8>, pairs: bool) -> (r: Result<Vec<Vec<u8>>, RdbError>)
    ensures
        same_members(r, spec_ziplist_members(zl@, pairs)),
{
    let (n, start) = ziplist_length_of(zl)?;
    let count: u64 = if pairs {
        2 * (n as u64 / 2)
    } else {
        n as u64
    };
    let (items, _) = items_at(zl, start, ItemKind::Ziplist, count)?;
    Ok(items)
}

/// Reads the fields and values of the zipmap `zm`.
pub fn zipmap_members(zm: &Vec<u8>) -> (r: Result<Vec<Vec<u8>>, RdbError>)
    ensures
        same_members(r, spec_zipmap_members(zm@)),
{
    let (len_byte, start) = u8_at(zm, 0)?;
    let pairs: u64 = if len_byte >= 254 {
        let n: i32 = count_zipmap_items_from(zm, start)?;
        (n / 2) as u64
    } else {
        len_byte as u64
    };
    let (items, _) = items_at(zm, start, ItemKind::Zipmap, 2 * pairs)?;
    Ok(items)
}

/// Reads the members of the intset `set`.
pub fn intset_members(set: &Vec<u8>) -> (r: Result<Vec<Vec<u8>>, RdbError>)
    ensures
        same_members(r, spec_intset_members(set@)),
{
    let ((width, count), start) = intset_header_of(set)?;
    let kind: ItemKind = if width == 2 {
        ItemKind::Int16
    } else if width == 4 {
        ItemKind::Int32
    } else {
        ItemKind::Int64
    };
    let (items, _) = items_at(set, start, kind, count as u64)?;
    Ok(items)
}

/// Reads the entries of the `count` ziplists that begin at `pos`.
pub fn quicklist_members(raw: &Vec<u8>, pos: usize, count: u32) -> (r: Result<
    Vec<Vec<u8>>,
    RdbError,
>)
    ensures
        same_members(r, spec_quicklist_members(raw@, pos as int, count as nat)),
{
    let ghost whole = spec_quicklist_members(raw@, pos as int, count as nat);
    let mut out: Vec<Vec<u8>> = Vec::new();
    let mut at: usize = pos;
    let mut i: u32 = 0;
    proof {
        assert(items_view(out@) =~= Seq::<Seq<u8>>::empty());
        match whole {
            Ok(rest) => {
                assert(Seq::<Seq<u8>>::empty() + rest =~= rest);
            },
            Err(e) => {},
        }
    }
    while i < count
        invariant
            i <= count,
            whole == spec_quicklist_members(raw@, pos as int, count as nat),
            whole == (match spec_quicklist_members(raw@, at as int, (count - i) as nat) {
                Ok(rest) => Ok::<Seq<Seq<u8>>, RdbError>(items_view(out@) + rest),
                Err(e) => Err::<Seq<Seq<u8>>, RdbError>(e),
            }),
        decreases count - i,
    {
        let ghost done = items_view(out@);
        let (zl, at1) = string_at(raw, at)?;
        let mut entries: Vec<Vec<u8>> = ziplist_members(&zl, false)?;
        proof {
            match spec_quicklist_members(raw@, at1 as int, (count - i - 1) as nat) {
                Ok(rest) => {
                    assert(done + (items_view(entries@) + rest) =~= (done + items_view(entries@))
                        + rest);
                },
                Err(e) => {},
            }
            assert(items_view(out@ + entries@) =~= done + items_view(entries@));
        }
        out.append(&mut entries);
        at = at1;
        i = i + 1;
    }
    proof {
        assert(items_view(out@) + Seq::<Seq<u8>>::empty() =~= items_view(out@));
    }
    Ok(out)
}

} // verus!
