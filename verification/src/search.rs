//! Lookups and splits run to their end on files that are held in memory.

use crate::error::Error;
use crate::lookup::{Lookup, LookupView};
use crate::model::Disk;
use crate::split::{Split, SplitView};
use crate::table::Table;
use crate::walk::{FileKind, Request, Stage, WalkView};
use vstd::prelude::*;

verus! {

/// The buckets that a walk may yet read: its first one, and `pages` spill
/// records.
pub open spec fn budget(w: WalkView, pages: nat) -> nat {
    if w.stage is Bucket {
        pages + 1
    } else {
        pages
    }
}

/// The spill records that a walk may yet read after its next read.
pub open spec fn pages_after(w: WalkView, pages: nat) -> nat {
    if w.stage is SpillBody {
        (pages - 1) as nat
    } else {
        pages
    }
}

/// A walk stays sound, and its next read takes it nearer to its end.
proof fn lemma_walk_moves(w: WalkView, bytes: Seq<u8>, pages: nat)
    requires
        w.sound(),
        w.wanted() matches Some(request) && bytes.len() == request.len,
        w.given(bytes) is Ok,
        w.stage is SpillBody ==> pages > 0,
    ensures
        ({
            let (w2, record) = w.given(bytes)->Ok_0;
            &&& w2.sound()
            &&& w2.passed().sound()
            &&& record is Some <==> w2.stage is At
            &&& w2.key_size == w.key_size && w2.filter == w.filter
            &&& nearing(w, pages, w2)
            &&& record is Some ==> nearing(w, pages, w2.passed())
        }),
{
    let (w2, record) = w.given(bytes)->Ok_0;
    match w.stage {
        Stage::Bucket => {
            crate::bucket::lemma_decoded_bucket_fits(bytes);
            let w1 = WalkView { home: crate::bucket::BucketView::decoding(bytes)->Some_0, ..w };
            crate::walk::lemma_next_of_interest_skips(w.filter, w1.current().entries, 0);
        },
        Stage::SpillBody { offset, .. } => {
            crate::bucket::lemma_decoded_bucket_fits(bytes);
            let w1 = WalkView {
                page: offset,
                spilled: crate::bucket::BucketView::decoding(bytes)->Some_0,
                ..w
            };
            crate::walk::lemma_next_of_interest_skips(w.filter, w1.current().entries, 0);
        },
        Stage::Size { .. } => {
            crate::codec::lemma_radix_values();
            crate::codec::lemma_be_value_bound(bytes);
        },
        Stage::Body { index, .. } => {
            crate::walk::lemma_next_of_interest_skips(w.filter, w.current().entries, index + 1);
        },
        Stage::SpillSize { .. } => {
            crate::codec::lemma_radix_values();
            crate::codec::lemma_be_value_bound(bytes.subrange(6, 8));
        },
        _ => {},
    }
}

/// A walk is nearer to its end than before a read.
pub open spec fn nearing(w: WalkView, pages: nat, w2: WalkView) -> bool {
    let rest = budget(w2, pages_after(w, pages));
    ||| rest < budget(w, pages)
    ||| rest == budget(w, pages) && 0 <= crate::progress::entries_left(w2)
        < crate::progress::entries_left(w)
    ||| rest == budget(w, pages) && crate::progress::entries_left(w2)
        == crate::progress::entries_left(w) && 0 <= crate::progress::reads_left(w2)
        < crate::progress::reads_left(w)
}

/// A lookup stays sound, and its next read takes it nearer to its end.
pub proof fn lemma_lookup_moves(l: LookupView, bytes: Seq<u8>, pages: nat)
    requires
        l.sound(),
        l.walk.wanted() matches Some(request) && bytes.len() == request.len,
        l.given(bytes) is Ok,
        l.walk.stage is SpillBody ==> pages > 0,
    ensures
        l.given(bytes)->Ok_0.sound(),
        l.given(bytes)->Ok_0.key == l.key,
        nearing(l.walk, pages, l.given(bytes)->Ok_0.walk),
{
    lemma_walk_moves(l.walk, bytes, pages);
}

/// A lookup at its end: it reads what it needs until it needs nothing more.
/// It reads no more than `pages` spill records.
pub open spec fn searched(d: Disk, l: LookupView, pages: nat) -> Result<LookupView, Error>
    decreases
            budget(l.walk, pages),
            crate::progress::entries_left(l.walk),
            crate::progress::reads_left(l.walk),
    when l.sound()
{
    match l.walk.wanted() {
        None => Ok(l),
        Some(request) => if !crate::progress::available(d, request) {
            Err(Error::UnexpectedEof)
        } else if l.walk.stage is SpillBody && pages == 0 {
            Err(Error::EndlessChain)
        } else {
            match l.given(crate::progress::answer(d, request)) {
                Err(error) => Err(error),
                Ok(next) => {
                    proof {
                        lemma_lookup_moves(l, crate::progress::answer(d, request), pages);
                    }
                    searched(d, next, pages_after(l.walk, pages))
                },
            }
        },
    }
}

/// A split stays sound, and its next read takes it nearer to its end.
pub proof fn lemma_split_moves(sp: SplitView, bytes: Seq<u8>, pages: nat)
    requires
        sp.sound(),
        sp.walk.wanted() matches Some(request) && bytes.len() == request.len,
        sp.given(bytes) is Ok,
        sp.walk.stage is SpillBody ==> pages > 0,
    ensures
        sp.given(bytes)->Ok_0.sound(),
        nearing(sp.walk, pages, sp.given(bytes)->Ok_0.walk),
{
    lemma_walk_moves(sp.walk, bytes, pages);
    let (w2, record) = sp.walk.given(bytes)->Ok_0;
    if record is Some {
        let index = w2.stage->At_index as int;
        crate::walk::lemma_next_of_interest_skips(w2.filter, w2.current().entries, index + 1);
        assert(w2.current().entries[index].fits());
    }
}

/// A split at its end: it reads what it needs until it needs nothing more. It
/// reads no more than `pages` spill records.
pub open spec fn sorted_out(d: Disk, sp: SplitView, pages: nat) -> Result<SplitView, Error>
    decreases
            budget(sp.walk, pages),
            crate::progress::entries_left(sp.walk),
            crate::progress::reads_left(sp.walk),
    when sp.sound()
{
    match sp.walk.wanted() {
        None => Ok(sp),
        Some(request) => if !crate::progress::available(d, request) {
            Err(Error::UnexpectedEof)
        } else if sp.walk.stage is SpillBody && pages == 0 {
            Err(Error::EndlessChain)
        } else {
            match sp.given(crate::progress::answer(d, request)) {
                Err(error) => Err(error),
                Ok(next) => {
                    proof {
                        lemma_split_moves(sp, crate::progress::answer(d, request), pages);
                    }
                    sorted_out(d, next, pages_after(sp.walk, pages))
                },
            }
        },
    }
}

/// What the files hold at a request.
fn read(dat: &Vec<u8>, key: &Vec<u8>, request: Request) -> (bytes: Result<Vec<u8>, Error>)
    ensures
        ({
            let d = Disk { dat: dat@, key: key@ };
            if crate::progress::available(d, request) {
                &&& bytes is Ok
                &&& bytes->Ok_0@ == crate::progress::answer(d, request)
            } else {
                bytes == Err::<Vec<u8>, Error>(Error::UnexpectedEof)
            }
        }),
{
    let file: &Vec<u8> = match request.file {
        FileKind::Dat => dat,
        FileKind::Key => key,
    };
    let size: usize = file.len();
    let len: u64 = size as u64;
    if request.offset > len || request.len > len - request.offset {
        return Err(Error::UnexpectedEof);
    }
    let start: usize = request.offset as usize;
    let end: usize = (request.offset + request.len) as usize;
    Ok(vstd::slice::slice_to_vec(vstd::slice::slice_subrange(file.as_slice(), start, end)))
}

/// Counts a spill record that is about to be read.
fn spend(stage: &Stage, pages: usize) -> (left: Result<usize, Error>)
    ensures
        left == if stage is SpillBody && pages == 0 {
            Err::<usize, Error>(Error::EndlessChain)
        } else if stage is SpillBody {
            Ok((pages - 1) as usize)
        } else {
            Ok(pages)
        },
{
    match stage {
        Stage::SpillBody { .. } => if pages == 0 {
            Err(Error::EndlessChain)
        } else {
            Ok(pages - 1)
        },
        _ => Ok(pages),
    }
}

/// Makes the next read of a lookup.
pub fn step(dat: &Vec<u8>, key: &Vec<u8>, lookup: &mut Lookup) -> (outcome: Result<(), Error>)
    requires
        old(lookup)@.sound(),
        old(lookup)@.walk.wanted() is Some,
    ensures
        final(lookup)@.sound(),
        ({
            let d = Disk { dat: dat@, key: key@ };
            let request = old(lookup)@.walk.wanted()->Some_0;
            if !crate::progress::available(d, request) {
                &&& outcome == Err::<(), Error>(Error::UnexpectedEof)
                &&& *final(lookup) == *old(lookup)
            } else {
                match old(lookup)@.given(crate::progress::answer(d, request)) {
                    Ok(next) => outcome is Ok && final(lookup)@ == next,
                    Err(error) => {
                        &&& outcome == Err::<(), Error>(error)
                        &&& *final(lookup) == *old(lookup)
                    },
                }
            }
        }),
{
    let request: Request = match lookup.request() {
        Some(request) => request,
        None => {
            return Ok(());
        },
    };
    match read(dat, key, request) {
        Ok(bytes) => lookup.resume(bytes.as_slice()),
        Err(error) => Err(error),
    }
}

/// Runs a lookup to its end.
pub fn search(dat: &Vec<u8>, key: &Vec<u8>, started: Lookup) -> (lookup: Result<Lookup, Error>)
    requires
        started@.sound(),
    ensures
        match searched(Disk { dat: dat@, key: key@ }, started@, dat@.len()) {
            Ok(view) => lookup is Ok && lookup->Ok_0@ == view && view.sound(),
            Err(error) => lookup == Err::<Lookup, Error>(error),
        },
{
    let ghost d = Disk { dat: dat@, key: key@ };
    let mut lookup: Lookup = started;
    let mut pages: usize = dat.len();
    loop
        invariant
            d == (Disk { dat: dat@, key: key@ }),
            lookup@.sound(),
            searched(d, lookup@, pages as nat) == searched(d, started@, dat@.len()),
        decreases
                budget(lookup@.walk, pages as nat),
                crate::progress::entries_left(lookup@.walk),
                crate::progress::reads_left(lookup@.walk),
    {
        let request: Request = match lookup.request() {
            Some(request) => request,
            None => {
                return Ok(lookup);
            },
        };
        let bytes: Vec<u8> = match read(dat, key, request) {
            Ok(bytes) => bytes,
            Err(error) => {
                return Err(error);
            },
        };
        let left: usize = match spend(&lookup.walk.stage, pages) {
            Ok(left) => left,
            Err(error) => {
                return Err(error);
            },
        };
        proof {
            if lookup@.given(bytes@) is Ok {
                lemma_lookup_moves(lookup@, bytes@, pages as nat);
            }
        }
        match lookup.resume(bytes.as_slice()) {
            Ok(()) => {},
            Err(error) => {
                return Err(error);
            },
        }
        pages = left;
    }
}

/// Runs a split to its end.
pub fn sort_out(dat: &Vec<u8>, key: &Vec<u8>, started: Split) -> (split: Result<Split, Error>)
    requires
        started@.sound(),
    ensures
        match sorted_out(Disk { dat: dat@, key: key@ }, started@, dat@.len()) {
            Ok(view) => split is Ok && split->Ok_0@ == view && view.sound(),
            Err(error) => split == Err::<Split, Error>(error),
        },
{
    let ghost d = Disk { dat: dat@, key: key@ };
    let mut split: Split = started;
    let mut pages: usize = dat.len();
    loop
        invariant
            d == (Disk { dat: dat@, key: key@ }),
            split@.sound(),
            sorted_out(d, split@, pages as nat) == sorted_out(d, started@, dat@.len()),
        decreases
                budget(split@.walk, pages as nat),
                crate::progress::entries_left(split@.walk),
                crate::progress::reads_left(split@.walk),
    {
        let request: Request = match split.request() {
            Some(request) => request,
            None => {
                return Ok(split);
            },
        };
        let bytes: Vec<u8> = match read(dat, key, request) {
            Ok(bytes) => bytes,
            Err(error) => {
                return Err(error);
            },
        };
        let left: usize = match spend(&split.walk.stage, pages) {
            Ok(left) => left,
            Err(error) => {
                return Err(error);
            },
        };
        proof {
            if split@.given(bytes@) is Ok {
                lemma_split_moves(split@, bytes@, pages as nat);
            }
        }
        match split.resume(bytes.as_slice()) {
            Ok(()) => {},
            Err(error) => {
                return Err(error);
            },
        }
        pages = left;
    }
}

/// A chain has no more spill records than bytes before its first one.
pub proof fn lemma_pages_bound(dat: Seq<u8>, bs: int, spill: u64)
    requires
        crate::model::linked(dat, bs, spill),
    ensures
        crate::model::pages(dat, bs, spill).len() <= spill,
        spill > 0 ==> spill < dat.len(),
    decreases spill,
{
    if spill > 0 {
        let bucket = crate::model::spill_page(dat, bs, spill as int)->Some_0;
        lemma_pages_bound(dat, bs, bucket.spill);
    }
}

/// A lookup in well formed files comes to its end.
pub proof fn lemma_searched(t: Table, d: Disk, l: LookupView, pages: nat)
    requires
        t.well_formed(d),
        crate::progress::searching(t, d, l),
        crate::progress::pages_left(t, d, l.walk) <= budget(l.walk, pages),
    ensures
        searched(d, l, pages) matches Ok(end) && {
            &&& crate::progress::searching(t, d, end)
            &&& end.walk.wanted() is None
            &&& end.key == l.key
            &&& end.walk.values == l.walk.values
        },
    decreases
            budget(l.walk, pages),
            crate::progress::entries_left(l.walk),
            crate::progress::reads_left(l.walk),
{
    if l.walk.wanted() is Some {
        let bytes = crate::progress::answer(d, l.walk.wanted()->Some_0);
        crate::progress::lemma_lookup_step(t, d, l);
        lemma_lookup_moves(l, bytes, pages);
        lemma_searched(t, d, l.given(bytes)->Ok_0, pages_after(l.walk, pages));
    }
}

/// A split in well formed files comes to its end.
pub proof fn lemma_sorted_out(t: Table, d: Disk, sp: SplitView, pages: nat)
    requires
        t.well_formed(d),
        crate::progress::parting(t, d, sp),
        crate::progress::pages_left(t, d, sp.walk) <= budget(sp.walk, pages),
    ensures
        sorted_out(d, sp, pages) matches Ok(end) && {
            &&& crate::progress::parting(t, d, end)
            &&& end.walk.wanted() is None
        },
    decreases
            budget(sp.walk, pages),
            crate::progress::entries_left(sp.walk),
            crate::progress::reads_left(sp.walk),
{
    if sp.walk.wanted() is Some {
        let bytes = crate::progress::answer(d, sp.walk.wanted()->Some_0);
        crate::progress::lemma_split_step(t, d, sp);
        lemma_split_moves(sp, bytes, pages);
        lemma_sorted_out(t, d, sp.given(bytes)->Ok_0, pages_after(sp.walk, pages));
    }
}

/// A lookup that comes to its end comes to the same end where more stands at
/// the end of the data file.
pub proof fn lemma_searched_grown(d: Disk, d2: Disk, l: LookupView, pages: nat, pages2: nat)
    requires
        l.sound(),
        d2.key == d.key,
        d.dat.is_prefix_of(d2.dat),
        pages <= pages2,
        searched(d, l, pages) is Ok,
    ensures
        searched(d2, l, pages2) == searched(d, l, pages),
    decreases
            budget(l.walk, pages),
            crate::progress::entries_left(l.walk),
            crate::progress::reads_left(l.walk),
{
    if l.walk.wanted() is Some {
        let request = l.walk.wanted()->Some_0;
        let bytes = crate::progress::answer(d, request);
        assert(crate::progress::answer(d2, request) =~= bytes);
        lemma_lookup_moves(l, bytes, pages);
        lemma_searched_grown(
            d,
            d2,
            l.given(bytes)->Ok_0,
            pages_after(l.walk, pages),
            pages_after(l.walk, pages2),
        );
    }
}

/// What stays the same in a lookup from its start to its end.
pub proof fn lemma_searched_state(d: Disk, l: LookupView, pages: nat)
    requires
        l.sound(),
    ensures
        searched(d, l, pages) matches Ok(end) ==> {
            &&& end.sound()
            &&& end.walk.wanted() is None
            &&& end.key == l.key
            &&& end.walk.block_size == l.walk.block_size
            &&& end.walk.index == l.walk.index
        },
    decreases
            budget(l.walk, pages),
            crate::progress::entries_left(l.walk),
            crate::progress::reads_left(l.walk),
{
    if searched(d, l, pages) is Ok && l.walk.wanted() is Some {
        let bytes = crate::progress::answer(d, l.walk.wanted()->Some_0);
        lemma_lookup_moves(l, bytes, pages);
        lemma_searched_state(d, l.given(bytes)->Ok_0, pages_after(l.walk, pages));
    }
}

/// What stays the same in a split from its start to its end.
pub proof fn lemma_sorted_out_state(d: Disk, sp: SplitView, pages: nat)
    requires
        sp.sound(),
    ensures
        sorted_out(d, sp, pages) matches Ok(end) ==> {
            &&& end.sound()
            &&& end.walk.wanted() is None
            &&& end.next == sp.next
        },
    decreases
            budget(sp.walk, pages),
            crate::progress::entries_left(sp.walk),
            crate::progress::reads_left(sp.walk),
{
    if sorted_out(d, sp, pages) is Ok && sp.walk.wanted() is Some {
        let bytes = crate::progress::answer(d, sp.walk.wanted()->Some_0);
        lemma_split_moves(sp, bytes, pages);
        lemma_sorted_out_state(d, sp.given(bytes)->Ok_0, pages_after(sp.walk, pages));
    }
}

} // verus!
