//! Finding the symbols of addresses.

use vstd::prelude::*;

use crate::frames::{
    clone_frame, frame_view, Frames, FramesView, Symbol, SymbolView, UnresolvedFrames,
    UnresolvedFramesView,
};

verus! {

/// The frames that were resolved: those with a symbol.
pub open spec fn resolved_frames(parts: Seq<Seq<SymbolView>>) -> Seq<Seq<SymbolView>>
    decreases parts.len(),
{
    if parts.len() == 0 {
        Seq::empty()
    } else if parts.last().len() > 0 {
        resolved_frames(parts.drop_last()).push(parts.last())
    } else {
        resolved_frames(parts.drop_last())
    }
}

/// At most one frame for each address.
pub proof fn lemma_resolved_len(parts: Seq<Seq<SymbolView>>)
    ensures
        resolved_frames(parts).len() <= parts.len(),
    decreases parts.len(),
{
    if parts.len() > 0 {
        lemma_resolved_len(parts.drop_last());
    }
}

/// The contents of the symbols of several addresses.
pub open spec fn parts_view(parts: Seq<Vec<Symbol>>) -> Seq<Seq<SymbolView>> {
    Seq::new(parts.len(), |i: int| frame_view(parts[i]@))
}

/// Keeps the frames that have a symbol.
pub fn keep_resolved(parts: Vec<Vec<Symbol>>) -> (r: Vec<Vec<Symbol>>)
    ensures
        parts_view(r@) == resolved_frames(parts_view(parts@)),
{
    let ghost all = parts_view(parts@);
    let mut frames: Vec<Vec<Symbol>> = Vec::new();
    let mut i: usize = 0;
    assert(parts_view(frames@) =~= resolved_frames(all.take(0)));
    while i < parts.len()
        invariant
            i <= parts@.len(),
            all == parts_view(parts@),
            parts_view(frames@) == resolved_frames(all.take(i as int)),
        decreases parts@.len() - i,
    {
        let ghost before = parts_view(frames@);
        proof {
            assert(all.take(i + 1).drop_last() =~= all.take(i as int));
            assert(all.take(i + 1).last() == frame_view(parts@[i as int]@));
        }
        if parts[i].len() > 0 {
            let frame = clone_frame(&parts[i]);
            frames.push(frame);
            assert(parts_view(frames@) =~= before.push(frame_view(parts@[i as int]@)));
        }
        i += 1;
    }
    assert(all.take(i as int) =~= all);
    frames
}

/// Whether `symbols` is what `backtrace::resolve` has found for an address. What it
/// finds depends on the running program and its debug information, so an address may
/// have more than one such list.
pub uninterp spec fn symbols_found(ip: usize, symbols: Seq<SymbolView>) -> bool;

/// Takes one more symbol of an address.
pub fn take_symbol(
    symbols: &mut Vec<Symbol>,
    name: Option<Vec<u8>>,
    addr: Option<usize>,
    lineno: Option<u32>,
    filename: Option<String>,
)
    ensures
        final(symbols)@ == old(symbols)@.push(Symbol { name, addr, lineno, filename }),
{
    symbols.push(Symbol { name, addr, lineno, filename });
}

/// Calls `backtrace::resolve`, which hands the symbols of an address, innermost first,
/// to a function. The symbols are those found for this address; nothing else is said
/// of them, and there may be none.
#[verifier::external_body]
fn resolve_address(ip: usize) -> (r: Vec<Symbol>)
    ensures
        symbols_found(ip, frame_view(r@)),
{
    let mut r: Vec<Symbol> = Vec::new();
    backtrace::resolve(
        std::ptr::with_exposed_provenance_mut(ip),
        |symbol| {
            take_symbol(
                &mut r,
                symbol.name().map(|name| name.as_bytes().to_vec()),
                symbol.addr().map(|addr| addr as usize),
                symbol.lineno(),
                symbol.filename().map(|path| path.to_string_lossy().into_owned()),
            )
        },
    );
    r
}

/// Whether the symbols were found for the addresses, one list for each.
pub open spec fn all_found(ips: Seq<usize>, parts: Seq<Seq<SymbolView>>) -> bool {
    &&& parts.len() == ips.len()
    &&& forall|i: int| 0 <= i < ips.len() ==> symbols_found(ips[i], #[trigger] parts[i])
}

/// Finds the symbols of all addresses.
pub fn resolve_addresses(ips: &Vec<usize>) -> (parts: Vec<Vec<Symbol>>)
    ensures
        all_found(ips@, parts_view(parts@)),
{
    let mut parts: Vec<Vec<Symbol>> = Vec::new();
    let mut i: usize = 0;
    while i < ips.len()
        invariant
            i <= ips@.len(),
            parts@.len() == i,
            forall|k: int|
                0 <= k < i ==> symbols_found(ips@[k], frame_view((#[trigger] parts@[k])@)),
        decreases ips@.len() - i,
    {
        parts.push(resolve_address(ips[i]));
        i += 1;
    }
    parts
}

/// The backtrace whose addresses have the given symbols.
pub open spec fn resolved(
    item: UnresolvedFramesView,
    parts: Seq<Seq<SymbolView>>,
) -> FramesView {
    FramesView {
        frames: resolved_frames(parts),
        thread_name: item.thread_name,
        thread_id: item.thread_id,
        sample_timestamp: item.sample_timestamp,
    }
}

/// Makes the backtrace whose addresses have the given symbols.
pub fn with_symbols(item: &UnresolvedFrames, parts: Vec<Vec<Symbol>>) -> (r: Frames)
    ensures
        r@ == resolved(item@, parts_view(parts@)),
{
    let ghost all = parts_view(parts@);
    let frames = keep_resolved(parts);
    let r = Frames {
        frames,
        thread_name: item.thread_name.clone(),
        thread_id: item.thread_id,
        sample_timestamp: item.sample_timestamp,
    };
    assert(r@.frames =~= parts_view(frames@));
    assert(r@ =~= resolved(item@, all));
    r
}

/// Whether `frames` is the backtrace with the symbols that were found for its addresses.
pub open spec fn is_resolved(item: UnresolvedFramesView, frames: FramesView) -> bool {
    exists|parts: Seq<Seq<SymbolView>>| #[trigger]
        all_found(item.frames, parts) && frames == resolved(item, parts)
}

/// Finds the symbols of a backtrace.
pub fn resolve_frames(item: &UnresolvedFrames) -> (r: Frames)
    ensures
        is_resolved(item@, r@),
{
    let parts = resolve_addresses(&item.frames);
    let ghost found = parts_view(parts@);
    assert(all_found(item@.frames, found));
    with_symbols(item, parts)
}

} // verus!
