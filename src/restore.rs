use vstd::prelude::*;

use std::sync::Arc;

use crate::entry::{ChunkPointer, Entry};

verus! {

/// Why restoring a file failed.
#[derive(Debug, Clone, Copy, PartialEq, Eq, Structural)]
pub enum RestoreError {
    /// The stored path cannot be restored.
    PathError,
    /// The filesystem refused to create, open, resize or map a file.
    IOError,
    /// The backend could not hand out an object.
    BackendError,
    /// A chunk did not decrypt, or did not fill its span exactly.
    IntegrityError,
    /// The worker side of the queue is gone.
    ChannelClosed,
}

/// The chunks of one file that live in one object, by their position in
/// the file's chunk list.
#[derive(Debug, Clone)]
pub struct ObjectGroup {
    pub object: u64,
    pub positions: Vec<usize>,
}

pub open spec fn object_at(cs: Seq<(u64, Arc<ChunkPointer>)>, k: int) -> u64 {
    cs[k].1.object
}

/// The positions below `n` whose chunk lives in `obj`, in increasing order.
pub open spec fn positions_of(cs: Seq<(u64, Arc<ChunkPointer>)>, obj: u64, n: int) -> Seq<usize>
    decreases n,
{
    if n <= 0 {
        Seq::empty()
    } else {
        let p = positions_of(cs, obj, n - 1);
        if object_at(cs, n - 1) == obj {
            p.push((n - 1) as usize)
        } else {
            p
        }
    }
}

/// The groups of `cs`: one for each object that a chunk lives in, never two
/// for one object, each listing every chunk of its object.
pub open spec fn grouped(cs: Seq<(u64, Arc<ChunkPointer>)>, gs: Seq<ObjectGroup>) -> bool {
    &&& forall|i: int, j: int| 0 <= i < j < gs.len() ==> gs[i].object != gs[j].object
    &&& forall|i: int|
        0 <= i < gs.len() ==> #[trigger] gs[i].positions@ == positions_of(cs, gs[i].object, cs.len() as int)
    &&& forall|k: int| 0 <= k < cs.len() ==> has_group(gs, #[trigger] object_at(cs, k))
    &&& forall|i: int| 0 <= i < gs.len() ==> used(cs, #[trigger] gs[i].object)
}

/// Some group is for `obj`.
pub open spec fn has_group(gs: Seq<ObjectGroup>, obj: u64) -> bool {
    exists|i: int| 0 <= i < gs.len() && gs[i].object == obj
}

/// Some chunk lives in `obj`.
pub open spec fn used(cs: Seq<(u64, Arc<ChunkPointer>)>, obj: u64) -> bool {
    exists|k: int| 0 <= k < cs.len() && object_at(cs, k) == obj
}

fn find_object(objects: &Vec<u64>, obj: u64) -> (r: Option<usize>)
    ensures
        match r {
            Some(j) => j < objects@.len() && objects@[j as int] == obj,
            None => forall|j: int| 0 <= j < objects@.len() ==> objects@[j] != obj,
        },
{
    let mut j: usize = 0;
    while j < objects.len()
        invariant
            j <= objects@.len(),
            forall|t: int| 0 <= t < j ==> objects@[t] != obj,
        decreases objects.len() - j,
    {
        if objects[j] == obj {
            return Some(j);
        }
        j = j + 1;
    }
    None
}

fn positions_in(chunks: &Vec<(u64, Arc<ChunkPointer>)>, obj: u64) -> (r: Vec<usize>)
    ensures
        r@ == positions_of(chunks@, obj, chunks@.len() as int),
{
    let mut r: Vec<usize> = Vec::new();
    let mut k: usize = 0;
    while k < chunks.len()
        invariant
            k <= chunks@.len(),
            r@ == positions_of(chunks@, obj, k as int),
        decreases chunks.len() - k,
    {
        if chunks[k].1.object == obj {
            r.push(k);
        }
        k = k + 1;
    }
    r
}

/// Object batching: whatever number of a file's chunks live in one object,
/// exactly one group, and so one fetch, is planned for that object.
pub proof fn lemma_one_fetch_per_object(cs: Seq<(u64, Arc<ChunkPointer>)>, gs: Seq<ObjectGroup>, obj: u64)
    requires
        grouped(cs, gs),
        used(cs, obj),
    ensures
        exists|i: int| 0 <= i < gs.len() && gs[i].object == obj && (forall|j: int| 0 <= j < gs.len() && gs[j].object == obj ==> j == i),
{
    let k = choose|k: int| 0 <= k < cs.len() && object_at(cs, k) == obj;
    assert(has_group(gs, object_at(cs, k)));
    let i = choose|i: int| 0 <= i < gs.len() && gs[i].object == obj;
    assert forall|j: int| 0 <= j < gs.len() && gs[j].object == obj implies j == i by {
        if j < i {
            assert(gs[j].object != gs[i].object);
        } else if i < j {
            assert(gs[i].object != gs[j].object);
        }
    }
}

/// The objects that the chunks live in, each once, in order of first use.
fn distinct_objects(chunks: &Vec<(u64, Arc<ChunkPointer>)>) -> (objects: Vec<u64>)
    ensures
        forall|i: int, j: int| 0 <= i < j < objects@.len() ==> objects@[i] != objects@[j],
        forall|t: int| 0 <= t < chunks@.len() ==> objects@.contains(#[trigger] object_at(chunks@, t)),
        forall|i: int| 0 <= i < objects@.len() ==> used(chunks@, #[trigger] objects@[i]),
{
    let mut objects: Vec<u64> = Vec::new();
    let mut k: usize = 0;
    while k < chunks.len()
        invariant
            k <= chunks@.len(),
            forall|i: int, j: int| 0 <= i < j < objects@.len() ==> objects@[i] != objects@[j],
            forall|t: int| 0 <= t < k ==> objects@.contains(#[trigger] object_at(chunks@, t)),
            forall|i: int| 0 <= i < objects@.len() ==> used(chunks@, #[trigger] objects@[i]),
        decreases chunks.len() - k,
    {
        let obj = chunks[k].1.object;
        let ghost before = objects@;
        match find_object(&objects, obj) {
            Some(j) => {
                proof {
                    assert(objects@[j as int] == object_at(chunks@, k as int));
                }
            },
            None => {
                objects.push(obj);
                proof {
                    assert(objects@[before.len() as int] == object_at(chunks@, k as int));
                    assert forall|i: int| 0 <= i < objects@.len() implies used(chunks@, #[trigger] objects@[i]) by {
                        if i < before.len() {
                            assert(objects@[i] == before[i]);
                        } else {
                            assert(object_at(chunks@, k as int) == objects@[i]);
                        }
                    }
                    assert forall|t: int| 0 <= t < k implies objects@.contains(#[trigger] object_at(chunks@, t)) by {
                        assert(before.contains(object_at(chunks@, t)));
                        let i = choose|i: int| 0 <= i < before.len() && before[i] == object_at(chunks@, t);
                        assert(objects@[i] == before[i]);
                    }
                }
            },
        }
        k = k + 1;
    }
    objects
}

/// Groups the chunks of a file by the object that holds them, so that each
/// object is fetched once for the file however many chunks it holds.
pub fn group_by_object(chunks: &Vec<(u64, Arc<ChunkPointer>)>) -> (r: Vec<ObjectGroup>)
    ensures
        grouped(chunks@, r@),
{
    let objects = distinct_objects(chunks);
    let mut r: Vec<ObjectGroup> = Vec::new();
    let mut j: usize = 0;
    while j < objects.len()
        invariant
            j <= objects@.len(),
            r@.len() == j,
            forall|i: int| 0 <= i < j ==> #[trigger] r@[i].object == objects@[i],
            forall|i: int|
                0 <= i < j ==> #[trigger] r@[i].positions@ == positions_of(chunks@, r@[i].object, chunks@.len() as int),
        decreases objects.len() - j,
    {
        let positions = positions_in(chunks, objects[j]);
        r.push(ObjectGroup { object: objects[j], positions });
        j = j + 1;
    }
    proof {
        assert forall|a: int, b: int| 0 <= a < b < r@.len() implies r@[a].object != r@[b].object by {
            assert(r@[a].object == objects@[a] && r@[b].object == objects@[b]);
        }
        assert forall|t: int| 0 <= t < chunks@.len() implies has_group(r@, #[trigger] object_at(chunks@, t)) by {
            assert(objects@.contains(object_at(chunks@, t)));
            let i = choose|i: int| 0 <= i < objects@.len() && objects@[i] == object_at(chunks@, t);
            assert(r@[i].object == objects@[i]);
        }
        assert forall|i: int| 0 <= i < r@.len() implies used(chunks@, #[trigger] r@[i].object) by {
            assert(r@[i].object == objects@[i]);
        }
    }
    r
}


/// The end of the span that starts at `start`: the least offset above
/// `start`, or `bound` where none lies between them.
pub open spec fn next_offset(offs: Seq<u64>, start: u64, bound: u64) -> u64
    decreases offs.len(),
{
    if offs.len() == 0 {
        bound
    } else {
        let r = next_offset(offs.drop_last(), start, bound);
        let o = offs.last();
        if start < o && o < r {
            o
        } else {
            r
        }
    }
}

proof fn lemma_next_offset_bounded(offs: Seq<u64>, start: u64, bound: u64)
    ensures
        next_offset(offs, start, bound) <= bound,
        start < bound ==> start < next_offset(offs, start, bound),
    decreases offs.len(),
{
    if offs.len() > 0 {
        lemma_next_offset_bounded(offs.drop_last(), start, bound);
    }
}

/// The offsets at which the chunks go.
pub open spec fn offsets(cs: Seq<(u64, Arc<ChunkPointer>)>) -> Seq<u64> {
    cs.map_values(|c: (u64, Arc<ChunkPointer>)| c.0)
}

/// Where the span that starts at `start` ends: at the next larger offset in
/// `offs`, or at `size` where there is none.
pub fn span_end(offs: &Vec<u64>, start: u64, size: u64) -> (r: u64)
    ensures
        r == next_offset(offs@, start, size),
        r <= size,
{
    let mut r = size;
    let mut k: usize = 0;
    proof {
        assert(offs@.take(0) =~= Seq::<u64>::empty());
    }
    while k < offs.len()
        invariant
            k <= offs@.len(),
            r == next_offset(offs@.take(k as int), start, size),
        decreases offs.len() - k,
    {
        proof {
            assert(offs@.take(k + 1).drop_last() =~= offs@.take(k as int));
        }
        let o = offs[k];
        if start < o && o < r {
            r = o;
        }
        k = k + 1;
    }
    proof {
        assert(offs@.take(k as int) =~= offs@);
        lemma_next_offset_bounded(offs@, start, size);
    }
    r
}

/// The offsets of an entry's chunks, in the order of its chunk list.
pub fn chunk_offsets(chunks: &Vec<(u64, Arc<ChunkPointer>)>) -> (r: Vec<u64>)
    ensures
        r@ == offsets(chunks@),
{
    let mut r: Vec<u64> = Vec::new();
    let mut k: usize = 0;
    while k < chunks.len()
        invariant
            k <= chunks@.len(),
            r@ == offsets(chunks@).take(k as int),
        decreases chunks.len() - k,
    {
        r.push(chunks[k].0);
        k = k + 1;
        proof {
            assert(r@ =~= offsets(chunks@).take(k as int));
        }
    }
    proof {
        assert(r@ =~= offsets(chunks@));
    }
    r
}

/// `img` with `data` written over it from `off` on.
pub open spec fn written(img: Seq<u8>, off: int, data: Seq<u8>) -> Seq<u8> {
    img.take(off) + data + img.skip(off + data.len())
}

/// The content of a file being restored, sized once and written by spans.
/// Bytes that no chunk covers stay zero.
pub struct FileImage {
    bytes: Vec<u8>,
}

impl View for FileImage {
    type V = Seq<u8>;

    closed spec fn view(&self) -> Seq<u8> {
        self.bytes@
    }
}

impl FileImage {
    /// An image of `size` zero bytes.
    pub fn new(size: usize) -> (r: FileImage)
        ensures
            r@ == Seq::new(size as nat, |i: int| 0u8),
    {
        let mut bytes: Vec<u8> = Vec::new();
        let mut i: usize = 0;
        while i < size
            invariant
                i <= size,
                bytes@ == Seq::new(i as nat, |t: int| 0u8),
            decreases size - i,
        {
            bytes.push(0u8);
            i = i + 1;
            proof {
                assert(bytes@ =~= Seq::new(i as nat, |t: int| 0u8));
            }
        }
        FileImage { bytes }
    }

    pub fn len(&self) -> (r: usize)
        ensures
            r == self@.len(),
    {
        self.bytes.len()
    }

    /// Writes `data` at `offset`, where it fits inside the image; refuses an
    /// overrun and leaves the image as it was.
    pub fn write_at(&mut self, offset: u64, data: &[u8]) -> (r: Result<(), RestoreError>)
        ensures
            offset + data@.len() <= old(self)@.len() ==> r is Ok && final(self)@ == written(
                old(self)@,
                offset as int,
                data@,
            ),
            offset + data@.len() > old(self)@.len() ==> r == Err::<(), RestoreError>(
                RestoreError::IntegrityError,
            ) && final(self)@ == old(self)@,
    {
        let n = self.bytes.len();
        if offset > n as u64 || data.len() > n - offset as usize {
            return Err(RestoreError::IntegrityError);
        }
        let start = offset as usize;
        let ghost before = self@;
        let mut i: usize = 0;
        while i < data.len()
            invariant
                n == before.len(),
                start + data@.len() <= n,
                i <= data@.len(),
                self@.len() == n,
                forall|t: int| 0 <= t < start ==> self@[t] == before[t],
                forall|t: int| start + data@.len() <= t < n ==> self@[t] == before[t],
                forall|t: int| 0 <= t < i ==> self@[start + t] == data@[t],
                forall|t: int| start + i <= t < start + data@.len() ==> self@[t] == before[t],
            decreases data.len() - i,
        {
            self.bytes.set(start + i, data[i]);
            i = i + 1;
        }
        proof {
            assert(self@ =~= written(before, start as int, data@));
        }
        Ok(())
    }

    pub fn into_bytes(self) -> (r: Vec<u8>)
        ensures
            r@ == self@,
    {
        self.bytes
    }
}

/// Places a decoded chunk that must fill `[start, end)` exactly.
pub fn place_chunk(image: &mut FileImage, start: u64, end: u64, decoded: &[u8]) -> (r: Result<
    (),
    RestoreError,
>)
    ensures
        start <= end && decoded@.len() == end - start && end <= old(image)@.len() ==> r is Ok
            && final(image)@ == written(old(image)@, start as int, decoded@),
        !(start <= end && decoded@.len() == end - start && end <= old(image)@.len()) ==> r
            == Err::<(), RestoreError>(RestoreError::IntegrityError) && final(image)@ == old(
            image,
        )@,
{
    if start > end || decoded.len() as u64 != end - start {
        return Err(RestoreError::IntegrityError);
    }
    image.write_at(start, decoded)
}

/// Places the decoded chunk at position `pos` of a file of `size` bytes
/// whose chunk offsets are `offs`: it must fill the span from its offset to
/// the next larger offset, or to the end of the file.
pub fn place_at_position(image: &mut FileImage, offs: &Vec<u64>, pos: usize, size: u64, decoded: &[u8]) -> (r:
    Result<(), RestoreError>)
    requires
        pos < offs@.len(),
    ensures
        ({
            let s = offs@[pos as int];
            let e = next_offset(offs@, s, size);
            let fits = s <= e && decoded@.len() == e - s && e <= old(image)@.len();
            &&& fits ==> r is Ok && final(image)@ == written(old(image)@, s as int, decoded@)
            &&& !fits ==> r == Err::<(), RestoreError>(RestoreError::IntegrityError) && final(image)@
                == old(image)@
        }),
{
    let start = offs[pos];
    let end = span_end(offs, start, size);
    place_chunk(image, start, end, decoded)
}

/// What the worker does for one entry.
#[derive(Debug, Clone)]
pub enum WorkPlan {
    /// Nothing to write: no file is opened or mapped and nothing is fetched.
    Skip,
    /// Size the file and fetch each object of `groups` once.
    Write { size: u64, groups: Vec<ObjectGroup> },
}

/// Plans the content restore of one entry.
pub fn plan_work(entry: &Entry) -> (r: WorkPlan)
    ensures
        entry.size == 0 <==> r is Skip,
        match r {
            WorkPlan::Skip => true,
            WorkPlan::Write { size, groups } => size == entry.size && grouped(entry.chunks@, groups@),
        },
{
    if entry.size == 0 {
        WorkPlan::Skip
    } else {
        WorkPlan::Write { size: entry.size, groups: group_by_object(&entry.chunks) }
    }
}


/// The offsets of decoded chunks.
pub open spec fn piece_offsets(ps: Seq<(u64, Vec<u8>)>) -> Seq<u64> {
    ps.map_values(|p: (u64, Vec<u8>)| p.0)
}

/// The file content after the first `n` decoded chunks are placed in a
/// zeroed file of `size` bytes, or `None` where one of them does not fill
/// its span exactly.
pub open spec fn assembled(size: u64, ps: Seq<(u64, Vec<u8>)>, n: int) -> Option<Seq<u8>>
    decreases n,
{
    if n <= 0 {
        Some(Seq::new(size as nat, |i: int| 0u8))
    } else {
        match assembled(size, ps, n - 1) {
            None => None,
            Some(img) => {
                let o = ps[n - 1].0;
                let d = ps[n - 1].1@;
                let e = next_offset(piece_offsets(ps), o, size);
                if o <= e && d.len() == e - o {
                    Some(written(img, o as int, d))
                } else {
                    None
                }
            },
        }
    }
}

proof fn lemma_assembled_len(size: u64, ps: Seq<(u64, Vec<u8>)>, n: int)
    ensures
        assembled(size, ps, n) is Some ==> assembled(size, ps, n)->0.len() == size,
    decreases n,
{
    if n > 0 {
        lemma_assembled_len(size, ps, n - 1);
        let o = ps[n - 1].0;
        lemma_next_offset_bounded(piece_offsets(ps), o, size);
    }
}

/// No two decoded chunks share an offset.
pub open spec fn distinct_offsets(ps: Seq<(u64, Vec<u8>)>) -> bool {
    forall|a: int, b: int| 0 <= a < b < ps.len() ==> ps[a].0 != ps[b].0
}

fn offsets_distinct(offs: &Vec<u64>) -> (r: bool)
    ensures
        r == forall|a: int, b: int| 0 <= a < b < offs@.len() ==> offs@[a] != offs@[b],
{
    let mut a: usize = 0;
    while a < offs.len()
        invariant
            a <= offs@.len(),
            forall|x: int, y: int| 0 <= x < a && x < y < offs@.len() ==> offs@[x] != offs@[y],
        decreases offs.len() - a,
    {
        let mut b: usize = a + 1;
        while b < offs.len()
            invariant
                a < offs@.len(),
                a + 1 <= b <= offs@.len(),
                forall|x: int, y: int| 0 <= x < a && x < y < offs@.len() ==> offs@[x] != offs@[y],
                forall|y: int| a < y < b ==> offs@[a as int] != offs@[y],
            decreases offs.len() - b,
        {
            if offs[a] == offs[b] {
                return false;
            }
            b = b + 1;
        }
        a = a + 1;
    }
    true
}

/// Builds the content of a file of `size` bytes from its decoded chunks,
/// each placed at its offset and filling the span up to the next offset or
/// the end of the file. Two chunks at one offset are refused.
pub fn assemble(size: u64, pieces: &Vec<(u64, Vec<u8>)>) -> (r: Result<Vec<u8>, RestoreError>)
    requires
        size <= usize::MAX,
    ensures
        !distinct_offsets(pieces@) ==> r == Err::<Vec<u8>, RestoreError>(RestoreError::IntegrityError),
        distinct_offsets(pieces@) ==> match assembled(size, pieces@, pieces@.len() as int) {
            Some(c) => r is Ok && r->Ok_0@ == c,
            None => r == Err::<Vec<u8>, RestoreError>(RestoreError::IntegrityError),
        },
{
    let mut offs: Vec<u64> = Vec::new();
    let mut k: usize = 0;
    while k < pieces.len()
        invariant
            k <= pieces@.len(),
            offs@ == piece_offsets(pieces@).take(k as int),
        decreases pieces.len() - k,
    {
        offs.push(pieces[k].0);
        k = k + 1;
        proof {
            assert(offs@ =~= piece_offsets(pieces@).take(k as int));
        }
    }
    proof {
        assert(offs@ =~= piece_offsets(pieces@));
    }
    if !offsets_distinct(&offs) {
        proof {
            let (a, b) = choose|a: int, b: int| 0 <= a < b < offs@.len() && offs@[a] == offs@[b];
            assert(offs@[a] == pieces@[a].0 && offs@[b] == pieces@[b].0);
        }
        return Err(RestoreError::IntegrityError);
    }
    proof {
        assert forall|a: int, b: int| 0 <= a < b < pieces@.len() implies pieces@[a].0 != pieces@[b].0 by {
            assert(offs@[a] == pieces@[a].0 && offs@[b] == pieces@[b].0);
        }
    }
    let mut image = FileImage::new(size as usize);
    let mut k: usize = 0;
    while k < pieces.len()
        invariant
            k <= pieces@.len(),
            offs@ == piece_offsets(pieces@),
            assembled(size, pieces@, k as int) == Some(image@),
            image@.len() == size,
        decreases pieces.len() - k,
    {
        let o = pieces[k].0;
        let end = span_end(&offs, o, size);
        match place_chunk(&mut image, o, end, pieces[k].1.as_slice()) {
            Ok(()) => {},
            Err(e) => {
                proof {
                    let j = k + 1;
                    assert(assembled(size, pieces@, j as int) is None);
                    lemma_assembled_none_stays(size, pieces@, j as int, pieces@.len() as int);
                }
                return Err(e);
            },
        }
        k = k + 1;
    }
    Ok(image.into_bytes())
}

proof fn lemma_assembled_none_stays(size: u64, ps: Seq<(u64, Vec<u8>)>, m: int, n: int)
    requires
        m <= n,
        assembled(size, ps, m) is None,
    ensures
        assembled(size, ps, n) is None,
    decreases n - m,
{
    if m < n {
        lemma_assembled_none_stays(size, ps, m, n - 1);
    }
}


proof fn lemma_next_offset_le(offs: Seq<u64>, start: u64, bound: u64, k: int)
    requires
        0 <= k < offs.len(),
        start < offs[k],
    ensures
        next_offset(offs, start, bound) <= offs[k],
    decreases offs.len(),
{
    if k < offs.len() - 1 {
        lemma_next_offset_le(offs.drop_last(), start, bound, k);
    }
}

proof fn lemma_piece_kept(size: u64, ps: Seq<(u64, Vec<u8>)>, i: int, n: int)
    requires
        0 <= i < n <= ps.len(),
        distinct_offsets(ps),
        assembled(size, ps, n) is Some,
    ensures
        ps[i].0 + ps[i].1@.len() <= size,
        assembled(size, ps, n)->0.subrange(ps[i].0 as int, ps[i].0 + ps[i].1@.len()) == ps[i].1@,
    decreases n,
{
    let offs = piece_offsets(ps);
    lemma_assembled_len(size, ps, n - 1);
    lemma_assembled_len(size, ps, n);
    let oi = ps[i].0 as int;
    let di = ps[i].1@;
    let img = assembled(size, ps, n - 1)->0;
    let j = n - 1;
    let oj = ps[j].0;
    let dj = ps[j].1@;
    lemma_next_offset_bounded(offs, oj, size);
    if i == j {
        assert(written(img, oi, di).subrange(oi, oi + di.len()) =~= di);
    } else {
        lemma_piece_kept(size, ps, i, n - 1);
        assert(offs[i] == ps[i].0 && offs[j] == oj);
        if (oj as int) < oi {
            lemma_next_offset_le(offs, oj, size, i);
        } else {
            assert(ps[i].0 != oj);
            lemma_next_offset_bounded(offs, ps[i].0, size);
            lemma_next_offset_le(offs, ps[i].0, size, j);
            if assembled(size, ps, i + 1) is None {
                lemma_assembled_none_stays(size, ps, i + 1, n);
            }
            lemma_piece_span(size, ps, i);
        }
        let after = written(img, oj as int, dj);
        assert(after.subrange(oi, oi + di.len()) =~= img.subrange(oi, oi + di.len()));
    }
}

proof fn lemma_piece_span(size: u64, ps: Seq<(u64, Vec<u8>)>, i: int)
    requires
        0 <= i < ps.len(),
        assembled(size, ps, i + 1) is Some,
    ensures
        ps[i].0 + ps[i].1@.len() == next_offset(piece_offsets(ps), ps[i].0, size),
{
}

/// Placing a decoded chunk: once a file is assembled from chunks at distinct
/// offsets, every chunk's bytes stand at its offset.
pub proof fn lemma_chunk_in_place(size: u64, ps: Seq<(u64, Vec<u8>)>, i: int)
    requires
        0 <= i < ps.len(),
        distinct_offsets(ps),
        assembled(size, ps, ps.len() as int) is Some,
    ensures
        ps[i].0 + ps[i].1@.len() <= size,
        assembled(size, ps, ps.len() as int)->0.subrange(ps[i].0 as int, ps[i].0 + ps[i].1@.len())
            == ps[i].1@,
{
    lemma_piece_kept(size, ps, i, ps.len() as int);
}

/// Deduplicated chunks: two files that both hold a chunk decoding to the same
/// bytes have those bytes, identical, at that chunk's offset in each.
pub proof fn lemma_shared_chunk_same_bytes(
    size_a: u64,
    a: Seq<(u64, Vec<u8>)>,
    i: int,
    size_b: u64,
    b: Seq<(u64, Vec<u8>)>,
    j: int,
)
    requires
        0 <= i < a.len(),
        0 <= j < b.len(),
        distinct_offsets(a),
        distinct_offsets(b),
        assembled(size_a, a, a.len() as int) is Some,
        assembled(size_b, b, b.len() as int) is Some,
        a[i].1@ == b[j].1@,
    ensures
        assembled(size_a, a, a.len() as int)->0.subrange(a[i].0 as int, a[i].0 + a[i].1@.len())
            == assembled(size_b, b, b.len() as int)->0.subrange(
            b[j].0 as int,
            b[j].0 + b[j].1@.len(),
        ),
{
    lemma_chunk_in_place(size_a, a, i);
    lemma_chunk_in_place(size_b, b, j);
}


/// Counts the files that are open at once and refuses to open more than
/// its capacity.
pub struct InFlight {
    cap: usize,
    open: usize,
}

impl InFlight {
    pub closed spec fn capacity_spec(&self) -> nat {
        self.cap as nat
    }

    pub closed spec fn open_spec(&self) -> nat {
        self.open as nat
    }

    /// No more files are open than the capacity allows.
    pub open spec fn wf(&self) -> bool {
        self.open_spec() <= self.capacity_spec()
    }

    pub fn new(cap: usize) -> (r: InFlight)
        ensures
            r.wf(),
            r.capacity_spec() == cap,
            r.open_spec() == 0,
    {
        InFlight { cap, open: 0 }
    }

    pub fn capacity(&self) -> (r: usize)
        ensures
            r == self.capacity_spec(),
    {
        self.cap
    }

    pub fn open_count(&self) -> (r: usize)
        ensures
            r == self.open_spec(),
    {
        self.open
    }

    /// Takes a slot for one more open file, where one is free.
    pub fn try_open(&mut self) -> (r: bool)
        requires
            old(self).wf(),
        ensures
            r == (old(self).open_spec() < old(self).capacity_spec()),
            final(self).open_spec() == (if r {
                old(self).open_spec() + 1
            } else {
                old(self).open_spec()
            }),
            final(self).capacity_spec() == old(self).capacity_spec(),
            final(self).wf(),
    {
        if self.open < self.cap {
            self.open = self.open + 1;
            true
        } else {
            false
        }
    }

    /// Gives back the slot of a file that was closed.
    pub fn close(&mut self)
        requires
            old(self).wf(),
        ensures
            final(self).open_spec() == (if old(self).open_spec() > 0 {
                old(self).open_spec() - 1
            } else {
                0
            }),
            final(self).capacity_spec() == old(self).capacity_spec(),
            final(self).wf(),
    {
        if self.open > 0 {
            self.open = self.open - 1;
        }
    }
}

/// Backpressure: whatever the order of opens and closes, a window of
/// capacity one never has two files open.
pub proof fn lemma_single_slot(w: InFlight)
    requires
        w.wf(),
        w.capacity_spec() == 1,
    ensures
        w.open_spec() <= 1,
{
}


proof fn lemma_next_offset_member(offs: Seq<u64>, start: u64, bound: u64)
    ensures
        next_offset(offs, start, bound) == bound || exists|k: int|
            0 <= k < offs.len() && offs[k] == next_offset(offs, start, bound),
    decreases offs.len(),
{
    if offs.len() > 0 {
        let q = offs.drop_last();
        lemma_next_offset_member(q, start, bound);
        if next_offset(offs, start, bound) != bound {
            if next_offset(offs, start, bound) == offs.last() {
                assert(offs[offs.len() - 1] == offs.last());
            } else {
                let k = choose|k: int| 0 <= k < q.len() && q[k] == next_offset(q, start, bound);
                assert(offs[k] == q[k]);
            }
        }
    }
}

/// Each decoded chunk is the slice of `b` from its offset to the end of its span.
pub open spec fn tiles(b: Seq<u8>, ps: Seq<(u64, Vec<u8>)>) -> bool {
    &&& b.len() <= u64::MAX
    &&& distinct_offsets(ps)
    &&& b.len() > 0 ==> exists|i: int| 0 <= i < ps.len() && ps[i].0 == 0
    &&& forall|i: int|
        0 <= i < ps.len() ==> (#[trigger] ps[i]).0 < b.len() && ps[i].1@ == b.subrange(
            ps[i].0 as int,
            next_offset(piece_offsets(ps), ps[i].0, b.len() as u64) as int,
        )
}

proof fn lemma_tiles_assemble(b: Seq<u8>, ps: Seq<(u64, Vec<u8>)>, n: int)
    requires
        tiles(b, ps),
        0 <= n <= ps.len(),
    ensures
        assembled(b.len() as u64, ps, n) is Some,
    decreases n,
{
    if n > 0 {
        lemma_tiles_assemble(b, ps, n - 1);
        let o = ps[n - 1].0;
        assert(o < b.len());
        lemma_next_offset_bounded(piece_offsets(ps), o, b.len() as u64);
    }
}

proof fn lemma_tiles_cover(b: Seq<u8>, ps: Seq<(u64, Vec<u8>)>, t: int)
    requires
        tiles(b, ps),
        0 <= t < b.len(),
    ensures
        exists|i: int|
            0 <= i < ps.len() && (#[trigger] ps[i]).0 <= t < next_offset(piece_offsets(ps), ps[i].0, b.len() as u64),
    decreases t,
{
    let size = b.len() as u64;
    let offs = piece_offsets(ps);
    if t == 0 {
        let i = choose|i: int| 0 <= i < ps.len() && ps[i].0 == 0;
        assert(ps[i].0 < b.len());
        lemma_next_offset_bounded(offs, ps[i].0, size);
    } else {
        lemma_tiles_cover(b, ps, t - 1);
        let i = choose|i: int| 0 <= i < ps.len() && (#[trigger] ps[i]).0 <= t - 1 < next_offset(offs, ps[i].0, size);
        let e = next_offset(offs, ps[i].0, size);
        if t >= e {
            lemma_next_offset_member(offs, ps[i].0, size);
            let k = choose|k: int| 0 <= k < offs.len() && offs[k] == e;
            assert(ps[k].0 == offs[k]);
            assert(ps[k].0 < b.len());
            lemma_next_offset_bounded(offs, ps[k].0, size);
        }
    }
}

/// Round trip: decoded chunks that tile a file's bytes, each the slice from
/// its offset to the next offset or the end, assemble back into exactly
/// those bytes.
pub proof fn lemma_round_trip(b: Seq<u8>, ps: Seq<(u64, Vec<u8>)>)
    requires
        tiles(b, ps),
    ensures
        assembled(b.len() as u64, ps, ps.len() as int) == Some(b),
{
    let size = b.len() as u64;
    let offs = piece_offsets(ps);
    lemma_tiles_assemble(b, ps, ps.len() as int);
    lemma_assembled_len(size, ps, ps.len() as int);
    let img = assembled(size, ps, ps.len() as int)->0;
    assert forall|t: int| 0 <= t < b.len() implies img[t] == b[t] by {
        lemma_tiles_cover(b, ps, t);
        let i = choose|i: int| 0 <= i < ps.len() && (#[trigger] ps[i]).0 <= t < next_offset(offs, ps[i].0, size);
        lemma_chunk_in_place(size, ps, i);
        let o = ps[i].0 as int;
        let e = next_offset(offs, ps[i].0, size) as int;
        assert(ps[i].0 < b.len());
        lemma_next_offset_bounded(offs, ps[i].0, size);
        assert(ps[i].1@ == b.subrange(o, e));
        assert(ps[i].1@.len() == e - o);
        assert(img.subrange(o, o + ps[i].1@.len())[t - o] == img[t]);
        assert(ps[i].1@[t - o] == b[t]);
    }
    assert(img =~= b);
}

} // verus!
