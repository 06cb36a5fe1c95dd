use vstd::prelude::*;
use vstd::arithmetic::power2::{pow2, lemma2_to64};
use crate::bitstream::{BitReader, BitsModel, field, read_field, skip_bits, lemma_skip_skip};
use crate::codebook::{Codebook, scalar_at};
use crate::error::{Error, ErrorKind, ExpectEof, Result};
use crate::util::{Bits, ilog_spec, lemma_ilog_bound};

verus! {

/// One class of floor partitions.
#[derive(Debug)]
pub struct Class {
    pub dim_count: usize,
    pub subclass_bit_count: usize,
    pub master_book: Option<usize>,
    pub subclass_books: Vec<Option<usize>>,
}

/// A floor of type 1: a piecewise-linear spectral envelope.
#[derive(Debug)]
pub struct Floor {
    pub mult: u8,
    pub range: u16,
    pub part_classes: Vec<usize>,
    pub classes: Vec<Class>,
    pub x_list: Vec<u16>,
    pub sorted_x_list: Vec<(usize, u16)>,
    pub neighbors: Vec<(usize, usize)>,
}

/// The amplitude range of a multiplier.
pub open spec fn range_of(mult: nat) -> nat {
    if mult == 1 {
        256
    } else if mult == 2 {
        128
    } else if mult == 3 {
        86
    } else {
        64
    }
}

/// Number of X-list values that the partitions `pcs` add.
pub open spec fn xs_count(pcs: Seq<usize>, classes: Seq<Class>) -> nat
    decreases pcs.len(),
{
    if pcs.len() == 0 {
        0
    } else {
        xs_count(pcs.drop_last(), classes) + classes[pcs.last() as int].dim_count as nat
    }
}

/// `(lo, hi)` are the neighbors of position `i` in `xs`: among the values
/// before position `i`, the largest below `xs[i]` and the smallest above.
pub open spec fn is_neighbors(xs: Seq<u16>, i: int, lo: int, hi: int) -> bool {
    &&& 0 <= lo < i
    &&& 0 <= hi < i
    &&& xs[lo] < xs[i] < xs[hi]
    &&& forall|j: int| 0 <= j < i && #[trigger] xs[j] < xs[i] ==> xs[j] <= xs[lo]
    &&& forall|j: int| 0 <= j < i && #[trigger] xs[j] > xs[i] ==> xs[j] >= xs[hi]
}

/// Whether a coded value at one of the positions 2 to `k - 1` after `i`
/// has `i` as a neighbor, which marks `i` used.
pub open spec fn marked(ys: Seq<(u16, bool)>, nb: Seq<(usize, usize)>, i: int, k: nat) -> bool
    decreases k,
{
    if k <= 2 {
        false
    } else {
        let j = k - 1;
        marked(ys, nb, i, (k - 1) as nat) || (j > i && ys[j].0 != 0 && (nb[j - 2].0 == i || nb[j - 2].1 == i))
    }
}

/// Whether position `i` is marked used once positions 2 to `k - 1` are
/// decoded: a decoded position is used where its coded value is not zero;
/// any position becomes used where a later non-zero position has it as a
/// neighbor; the others keep their flag.
pub open spec fn used_after(ys: Seq<(u16, bool)>, nb: Seq<(usize, usize)>, i: int, k: nat) -> bool {
    (if 2 <= i < k { ys[i].0 != 0 } else { ys[i].1 }) || marked(ys, nb, i, k)
}

proof fn lemma_marked_none(ys: Seq<(u16, bool)>, nb: Seq<(usize, usize)>, i: int, k: nat)
    requires
        k <= i + 1,
    ensures
        !marked(ys, nb, i, k),
    decreases k,
{
    if k > 2 {
        lemma_marked_none(ys, nb, i, (k - 1) as nat);
    }
}

/// The predicted amplitude at `x` on the line from `(x0, y0)` to `(x1, y1)`.
pub open spec fn point_spec(x0: int, y0: int, x1: int, y1: int, x: int) -> int {
    let dy = y1 - y0;
    let ady = if dy < 0 { -dy } else { dy };
    let off = (ady * (x - x0)) / (x1 - x0);
    if dy < 0 {
        y0 - off
    } else {
        y0 + off
    }
}

/// The amplitude that a coded value `y` gives next to the prediction `pred`.
pub open spec fn amplitude_spec(range: int, pred: int, y: int) -> int {
    let high_room = range - pred;
    let low_room = pred;
    let room = if high_room < low_room { high_room * 2 } else { low_room * 2 };
    if y != 0 {
        if y >= room {
            if high_room > low_room {
                pred + y - low_room
            } else {
                pred - y + high_room - 1
            }
        } else if y % 2 == 0 {
            pred + y / 2
        } else {
            pred - (y + 1) / 2
        }
    } else {
        pred
    }
}

/// A class as plain values: dimensions, subclass bits, master book and subclass books.
pub type ClassSpec = (usize, usize, Option<usize>, Seq<Option<usize>>);

/// A class as plain values.
pub open spec fn class_view(c: Class) -> ClassSpec {
    (c.dim_count, c.subclass_bit_count, c.master_book, c.subclass_books@)
}

/// `n` subclass books from `m`, a byte each: 0 for none, else the book
/// number plus one, which must be below `cb`.
pub open spec fn books_list_at(m: BitsModel, n: nat, cb: nat) -> Option<(Seq<Option<usize>>, BitsModel)>
    decreases n,
{
    if n == 0 {
        Some((Seq::empty(), m))
    } else {
        match books_list_at(m, (n - 1) as nat, cb) {
            Some((bs, m1)) => match read_field(m1, 8) {
                Some((v, m2)) => if v == 0 {
                    Some((bs.push(None), m2))
                } else if v - 1 >= cb {
                    None
                } else {
                    Some((bs.push(Some((v - 1) as usize)), m2))
                },
                None => None,
            },
            None => None,
        }
    }
}

/// A class description at the start of `m`, for `cb` codebooks.
pub open spec fn class_spec(m: BitsModel, cb: nat) -> Option<(ClassSpec, BitsModel)> {
    match read_field(m, 3) {
        Some((d, m1)) => match read_field(m1, 2) {
            Some((sb, m2)) => {
                let master: Option<(Option<usize>, BitsModel)> = if sb != 0 {
                    match read_field(m2, 8) {
                        Some((mb, m3)) => if mb >= cb {
                            None
                        } else {
                            Some((Some(mb as usize), m3))
                        },
                        None => None,
                    }
                } else {
                    Some((None, m2))
                };
                match master {
                    Some((mo, m3)) => match books_list_at(m3, pow2(sb), cb) {
                        Some((bs, m4)) => Some((((d + 1) as usize, sb as usize, mo, bs), m4)),
                        None => None,
                    },
                    None => None,
                }
            },
            None => None,
        },
        None => None,
    }
}

proof fn lemma_books_list_none(m: BitsModel, a: nat, b: nat, cb: nat)
    requires
        a <= b,
        books_list_at(m, a, cb) is None,
    ensures
        books_list_at(m, b, cb) is None,
    decreases b,
{
    if a < b {
        lemma_books_list_none(m, a, (b - 1) as nat, cb);
    }
}

/// `n` partition classes from `m`, 4 bits each.
pub open spec fn part_classes_at(m: BitsModel, n: nat) -> Option<(Seq<usize>, BitsModel)>
    decreases n,
{
    if n == 0 {
        Some((Seq::empty(), m))
    } else {
        match part_classes_at(m, (n - 1) as nat) {
            Some((ps, m1)) => match read_field(m1, 4) {
                Some((v, m2)) => Some((ps.push(v as usize), m2)),
                None => None,
            },
            None => None,
        }
    }
}

/// Number of classes that the partitions use: the largest class plus one.
pub open spec fn classes_used(ps: Seq<usize>) -> nat
    decreases ps.len(),
{
    if ps.len() == 0 {
        0
    } else {
        let r = classes_used(ps.drop_last());
        if ps.last() + 1 > r {
            (ps.last() + 1) as nat
        } else {
            r
        }
    }
}

/// `n` class descriptions from `m`.
pub open spec fn classes_at(m: BitsModel, n: nat, cb: nat) -> Option<(Seq<ClassSpec>, BitsModel)>
    decreases n,
{
    if n == 0 {
        Some((Seq::empty(), m))
    } else {
        match classes_at(m, (n - 1) as nat, cb) {
            Some((cs, m1)) => match class_spec(m1, cb) {
                Some((c, m2)) => Some((cs.push(c), m2)),
                None => None,
            },
            None => None,
        }
    }
}

/// Number of X values that the partitions `ps` of classes `cls` add.
pub open spec fn dims_total(ps: Seq<usize>, cls: Seq<ClassSpec>) -> nat
    decreases ps.len(),
{
    if ps.len() == 0 {
        0
    } else {
        dims_total(ps.drop_last(), cls) + cls[ps.last() as int].0 as nat
    }
}

/// `n` X values of `rb` bits each from `m`.
pub open spec fn xs_at(m: BitsModel, n: nat, rb: nat) -> Option<(Seq<u16>, BitsModel)>
    decreases n,
{
    if n == 0 {
        Some((Seq::empty(), m))
    } else {
        match xs_at(m, (n - 1) as nat, rb) {
            Some((xs, m1)) => match read_field(m1, rb) {
                Some((v, m2)) => Some((xs.push(v as u16), m2)),
                None => None,
            },
            None => None,
        }
    }
}

/// The floor after the multiplier and the range bits: the X values.
pub open spec fn floor_after_header(m: BitsModel, ps: Seq<usize>, cls: Seq<ClassSpec>, mult: nat, rb: nat) -> Option<(Seq<usize>, Seq<ClassSpec>, nat, nat, Seq<u16>)> {
    if dims_total(ps, cls) > 63 {
        None
    } else {
        match xs_at(m, dims_total(ps, cls), rb) {
            Some((xs, _m1)) => Some((ps, cls, mult, rb, xs)),
            None => None,
        }
    }
}

/// The floor after its classes: multiplier, range bits and X values.
pub open spec fn floor_after_classes(m: BitsModel, ps: Seq<usize>, cls: Seq<ClassSpec>) -> Option<(Seq<usize>, Seq<ClassSpec>, nat, nat, Seq<u16>)> {
    match read_field(m, 2) {
        Some((mu, m1)) => match read_field(m1, 4) {
            Some((rb, m2)) => floor_after_header(m2, ps, cls, mu + 1, rb),
            None => None,
        },
        None => None,
    }
}

/// The floor after its partition classes.
pub open spec fn floor_after_parts(m: BitsModel, ps: Seq<usize>, cb: nat) -> Option<(Seq<usize>, Seq<ClassSpec>, nat, nat, Seq<u16>)> {
    match classes_at(m, classes_used(ps), cb) {
        Some((cls, m1)) => floor_after_classes(m1, ps, cls),
        None => None,
    }
}

/// The partition classes, classes, multiplier, range bits and X values of
/// the floor descriptor (type 1) that the bits of `m` hold, for `cb`
/// codebooks; `None` where they hold none.
pub open spec fn floor_parts(m: BitsModel, cb: nat) -> Option<(Seq<usize>, Seq<ClassSpec>, nat, nat, Seq<u16>)> {
    match read_field(m, 16) {
        Some((t, m1)) => if t != 1 {
            None
        } else {
            match read_field(m1, 5) {
                Some((pc, m2)) => if pc == 0 {
                    None
                } else {
                    match part_classes_at(m2, pc) {
                        Some((ps, m3)) => floor_after_parts(m3, ps, cb),
                        None => None,
                    }
                },
                None => None,
            }
        },
        None => None,
    }
}

/// No value occurs twice.
pub open spec fn all_distinct(s: Seq<u16>) -> bool {
    forall|a: int, b: int| 0 <= a < b < s.len() ==> s[a] != s[b]
}

/// Whether the bits of `m` hold a valid floor descriptor: its X list,
/// 0 and `2^rangebits` then the values read, has no value twice.
pub open spec fn floor_ok(m: BitsModel, cb: nat) -> bool {
    floor_parts(m, cb) matches Some((_ps, _cls, _mu, rb, xs)) && all_distinct(seq![0u16, pow2(rb) as u16] + xs)
}

proof fn lemma_part_classes_none(m: BitsModel, a: nat, b: nat)
    requires
        a <= b,
        part_classes_at(m, a) is None,
    ensures
        part_classes_at(m, b) is None,
    decreases b,
{
    if a < b {
        lemma_part_classes_none(m, a, (b - 1) as nat);
    }
}

proof fn lemma_classes_none(m: BitsModel, a: nat, b: nat, cb: nat)
    requires
        a <= b,
        classes_at(m, a, cb) is None,
    ensures
        classes_at(m, b, cb) is None,
    decreases b,
{
    if a < b {
        lemma_classes_none(m, a, (b - 1) as nat, cb);
    }
}

proof fn lemma_xs_none(m: BitsModel, a: nat, b: nat, rb: nat)
    requires
        a <= b,
        xs_at(m, a, rb) is None,
    ensures
        xs_at(m, b, rb) is None,
    decreases b,
{
    if a < b {
        lemma_xs_none(m, a, (b - 1) as nat, rb);
    }
}

proof fn lemma_xs_count_prefix(ps: Seq<usize>, classes: Seq<Class>, k: nat)
    requires
        k <= ps.len(),
        forall|q: int| 0 <= q < ps.len() ==> #[trigger] ps[q] < classes.len(),
        forall|c: int| 0 <= c < classes.len() ==> 1 <= (#[trigger] classes[c]).dim_count,
    ensures
        xs_count(ps.take(k as int), classes) <= xs_count(ps, classes),
    decreases ps.len() - k,
{
    if k < ps.len() {
        lemma_xs_count_prefix(ps, classes, k + 1);
        let t = ps.take(k as int + 1);
        assert(t.drop_last() =~= ps.take(k as int));
    } else {
        assert(ps.take(k as int) =~= ps);
    }
}

proof fn lemma_dims_total(ps: Seq<usize>, classes: Seq<Class>)
    requires
        forall|q: int| 0 <= q < ps.len() ==> #[trigger] ps[q] < classes.len(),
    ensures
        xs_count(ps, classes) == dims_total(ps, classes.map_values(|c: Class| class_view(c))),
    decreases ps.len(),
{
    if ps.len() > 0 {
        lemma_dims_total(ps.drop_last(), classes);
    }
}

/// The values of `n` dimensions of class `cl`, from `m`: each picks a
/// subclass book by the low digits of `cval` (base: the number of subclass
/// books) and reads one entry from it, or gives 0 where the book is absent.
pub open spec fn dims_ys(cl: Class, cbs: Seq<Codebook>, m: BitsModel, cval: nat, n: nat) -> Option<(Seq<u16>, BitsModel)>
    decreases n,
{
    if n == 0 {
        Some((Seq::empty(), m))
    } else {
        let nsub = cl.subclass_books@.len();
        let first: Option<(nat, BitsModel)> = match cl.subclass_books@[(cval % nsub) as int] {
            Some(b) => scalar_at(cbs[b as int], m),
            None => Some((0, m)),
        };
        match first {
            Some((v, m1)) => match dims_ys(cl, cbs, m1, cval / nsub, (n - 1) as nat) {
                Some((rest, m2)) => Some((seq![v as u16] + rest, m2)),
                None => None,
            },
            None => None,
        }
    }
}

/// The coded values of the partitions from `p` on, from `m`.
pub open spec fn parts_ys(f: Floor, cbs: Seq<Codebook>, m: BitsModel, p: nat) -> Option<(Seq<u16>, BitsModel)>
    decreases f.part_classes@.len() - p,
{
    if p >= f.part_classes@.len() {
        Some((Seq::empty(), m))
    } else {
        let cl = f.classes@[f.part_classes@[p as int] as int];
        let master: Option<(nat, BitsModel)> = match cl.master_book {
            Some(b) => scalar_at(cbs[b as int], m),
            None => Some((0, m)),
        };
        match master {
            Some((cval, m1)) => match dims_ys(cl, cbs, m1, cval, cl.dim_count as nat) {
                Some((ys, m2)) => match parts_ys(f, cbs, m2, p + 1) {
                    Some((rest, m3)) => Some((ys + rest, m3)),
                    None => None,
                },
                None => None,
            },
            None => None,
        }
    }
}

/// The coded Y values of a floor in use whose data is complete: the two
/// end values, then the partitions' values; `None` where the flag is 0 or
/// the data is cut short or undecodable.
pub open spec fn floor_coded(f: Floor, cbs: Seq<Codebook>, m: BitsModel) -> Option<Seq<u16>> {
    let lb = ilog_spec((f.range - 1) as nat);
    if m.len < 1 + 2 * lb || field(m, 0, 1) != 1 {
        None
    } else {
        match parts_ys(f, cbs, skip_bits(m, 1 + 2 * lb), 0) {
            Some((ys, _m1)) => Some(seq![field(m, 1, lb) as u16, field(m, 1 + lb, lb) as u16] + ys),
            None => None,
        }
    }
}

/// `ys` are the amplitudes that decoding the coded values `old` gives.
pub open spec fn amplitudes_of(f: Floor, old: Seq<(u16, bool)>, ys: Seq<(u16, bool)>) -> bool {
    &&& ys.len() == old.len()
    &&& forall|i: int| 0 <= i < 2 ==> #[trigger] ys[i].0 == old[i].0
    &&& forall|i: int|
        2 <= i < f.x_list@.len() ==> {
            let (lo, hi) = #[trigger] f.neighbors@[i - 2];
            ys[i].0 == (amplitude_spec(
                f.range as int,
                point_spec(f.x_list@[lo as int] as int, ys[lo as int].0 as int, f.x_list@[hi as int] as int, ys[hi as int].0 as int, f.x_list@[i] as int),
                old[i].0 as int,
            ) as u16)
        }
    &&& forall|i: int| 0 <= i < f.x_list@.len() ==> #[trigger] ys[i].1 == used_after(old, f.neighbors@, i, f.x_list@.len())
}

impl Floor {
    pub open spec fn wf(&self, codebook_count: nat) -> bool {
        &&& self.wf_geometry()
        &&& forall|c: int| 0 <= c < self.classes@.len() ==> {
            let cl = #[trigger] self.classes@[c];
            &&& (cl.master_book matches Some(b) ==> b < codebook_count)
            &&& forall|s: int| 0 <= s < cl.subclass_books@.len() ==> (#[trigger] cl.subclass_books@[s] matches Some(b) ==> b < codebook_count)
        }
    }

    /// The descriptor's invariant, apart from codebook indices.
    pub open spec fn wf_geometry(&self) -> bool {
        &&& 1 <= self.mult <= 4
        &&& self.range == range_of(self.mult as nat)
        &&& 1 <= self.part_classes@.len() <= 31
        &&& forall|p: int| 0 <= p < self.part_classes@.len() ==> #[trigger] self.part_classes@[p] < self.classes@.len()
        &&& forall|c: int| 0 <= c < self.classes@.len() ==> {
            let cl = #[trigger] self.classes@[c];
            &&& 1 <= cl.dim_count <= 8
            &&& cl.subclass_bit_count <= 3
            &&& (cl.master_book is Some <==> cl.subclass_bit_count > 0)
            &&& cl.subclass_books@.len() == pow2(cl.subclass_bit_count as nat)
        }
        &&& 2 <= self.x_list@.len() <= 65
        &&& self.x_list@.len() == 2 + xs_count(self.part_classes@, self.classes@)
        &&& self.x_list@[0] == 0
        &&& self.x_list@[1] <= 0x8000
        &&& forall|i: int| 2 <= i < self.x_list@.len() ==> #[trigger] self.x_list@[i] < self.x_list@[1]
        &&& forall|i: int, j: int| 0 <= i < j < self.x_list@.len() ==> #[trigger] self.x_list@[i] != #[trigger] self.x_list@[j]
        &&& self.neighbors@.len() == self.x_list@.len() - 2
        &&& forall|i: int| 2 <= i < self.x_list@.len() ==> is_neighbors(self.x_list@, i, #[trigger] self.neighbors@[i - 2].0 as int, self.neighbors@[i - 2].1 as int)
        &&& self.sorted_x_list@.len() == self.x_list@.len()
        &&& forall|k: int| 0 <= k < self.sorted_x_list@.len() ==> {
            let e = #[trigger] self.sorted_x_list@[k];
            &&& e.0 < self.x_list@.len()
            &&& e.1 == self.x_list@[e.0 as int]
        }
        &&& forall|k: int| 0 < k < self.sorted_x_list@.len() ==> #[trigger] self.sorted_x_list@[k - 1].1 <= self.sorted_x_list@[k].1
    }

    /// Reads a floor descriptor; codebook indices must be below `codebooks_len`.
    pub fn read(reader: &mut BitReader, codebooks_len: usize) -> (r: Result<Self>)
        requires
            old(reader).wf(),
        ensures
            final(reader).wf(),
            16 <= old(reader)@.len && field(old(reader)@, 0, 16) != 1 ==> r.is_err() && r->Err_0 is Undecodable,
            21 <= old(reader)@.len && field(old(reader)@, 0, 16) == 1 && field(old(reader)@, 16, 5) == 0 ==> r.is_err() && r->Err_0 is Undecodable,
            r.is_err() && final(reader)@.len > 0 ==> r->Err_0 is Undecodable,
            r.is_err() && r->Err_0 is Io ==> final(reader)@.len == 0,
            r.is_ok() ==> r.unwrap().wf(codebooks_len as nat),
            r.is_ok() ==> {
                let m = old(reader)@;
                let f = r.unwrap();
                &&& f.part_classes@.len() == field(m, 16, 5)
                &&& forall|p: int| 0 <= p < f.part_classes@.len() ==> #[trigger] f.part_classes@[p] == field(m, (21 + 4 * p) as nat, 4)
            },
            field(old(reader)@, 0, 16) != 1 ==> r.is_err(),
            field(old(reader)@, 16, 5) == 0 ==> r.is_err(),
            r.is_ok() <==> floor_ok(old(reader)@, codebooks_len as nat),
            r.is_ok() ==> ({
                let (ps, cls, mu, rb, xs) = floor_parts(old(reader)@, codebooks_len as nat).unwrap();
                let f = r.unwrap();
                &&& f.part_classes@ == ps
                &&& f.classes@.map_values(|c: Class| class_view(c)) == cls
                &&& f.mult == mu
                &&& f.x_list@ == seq![0u16, pow2(rb) as u16] + xs
            }),
            r.is_err() ==> r->Err_0 is Undecodable || r->Err_0 is Io,
    {
        let ghost m = reader@;
        let ghost cb = codebooks_len as nat;
        proof {
            lemma2_to64();
            assert(skip_bits(m, 0) == m);
        }
        let kind = reader.read_u16()?;
        proof {
            lemma_skip_skip(m, 0, 16);
        }
        if kind == 0 {
            return Err(Error::Undecodable("Floor 0 is not supported"));
        } else if kind != 1 {
            return Err(Error::Undecodable("Unsupported floor type"));
        }
        let part_count = reader.read_u32_bits(5)? as usize;
        proof {
            lemma_skip_skip(m, 16, 5);
        }
        if part_count == 0 {
            return Err(Error::Undecodable("Invalid floor partition count"));
        }
        let ghost m2 = reader@;
        proof {
            assert(floor_parts(m, cb) == (match part_classes_at(m2, part_count as nat) {
                Some((ps, m3)) => floor_after_parts(m3, ps, cb),
                None => None,
            }));
        }
        let mut part_classes: Vec<usize> = Vec::new();
        let mut class_count: usize = 0;
        let mut p: usize = 0;
        proof {
            assert(part_classes@ =~= Seq::<usize>::empty());
        }
        while p < part_count
            invariant
                reader.wf(),
                p <= part_count <= 31,
                part_classes@.len() == p,
                class_count <= 16,
                class_count == classes_used(part_classes@),
                forall|q: int| 0 <= q < p ==> #[trigger] part_classes@[q] < class_count,
                forall|q: int| 0 <= q < p ==> #[trigger] part_classes@[q] == field(m, (21 + 4 * q) as nat, 4),
                reader@ == skip_bits(m, (21 + 4 * p) as nat),
                21 + 4 * p <= m.len,
                m2 == skip_bits(m, 21),
                m == old(reader)@,
                cb == codebooks_len as nat,
                field(m, 0, 16) == 1 && field(m, 16, 5) != 0,
                part_classes_at(m2, p as nat) == Some((part_classes@, reader@)),
                floor_parts(m, cb) == (match part_classes_at(m2, part_count as nat) {
                    Some((ps, m3)) => floor_after_parts(m3, ps, cb),
                    None => None,
                }),
            decreases part_count - p,
        {
            proof {
                lemma2_to64();
            }
            let part_class = match reader.read_u8_bits(4) {
                Ok(v) => v as usize,
                Err(e) => {
                    proof {
                        lemma_part_classes_none(m2, (p + 1) as nat, part_count as nat);
                        assert(!floor_ok(m, cb));
                    }
                    return Err(e);
                },
            };
            proof {
                lemma_skip_skip(m, (21 + 4 * p) as nat, 4);
            }
            let ghost before = part_classes@;
            if part_class + 1 > class_count {
                class_count = part_class + 1;
            }
            part_classes.push(part_class);
            proof {
                assert(part_classes@.drop_last() =~= before);
            }
            p = p + 1;
        }
        let ghost m3 = reader@;
        let ghost ps = part_classes@;
        let mut classes: Vec<Class> = Vec::new();
        let mut c: usize = 0;
        proof {
            assert(classes@.map_values(|cl: Class| class_view(cl)) =~= Seq::<ClassSpec>::empty());
        }
        while c < class_count
            invariant
                reader.wf(),
                c <= class_count <= 16,
                classes@.len() == c,
                part_classes@ == ps,
                m == old(reader)@,
                cb == codebooks_len as nat,
                field(m, 0, 16) == 1 && field(m, 16, 5) != 0,
                class_count == classes_used(ps),
                forall|q: int| 0 <= q < part_count ==> #[trigger] part_classes@[q] < class_count,
                part_count == part_classes@.len(),
                classes_at(m3, c as nat, cb) == Some((classes@.map_values(|cl: Class| class_view(cl)), reader@)),
                floor_parts(m, cb) == (match classes_at(m3, class_count as nat, cb) {
                    Some((cls, m4)) => floor_after_classes(m4, ps, cls),
                    None => None,
                }),
                forall|k: int| 0 <= k < c ==> {
                    let cl = #[trigger] classes@[k];
                    &&& 1 <= cl.dim_count <= 8
                    &&& cl.subclass_bit_count <= 3
                    &&& (cl.master_book is Some <==> cl.subclass_bit_count > 0)
                    &&& (cl.master_book matches Some(b) ==> b < codebooks_len)
                    &&& cl.subclass_books@.len() == pow2(cl.subclass_bit_count as nat)
                    &&& forall|s: int| 0 <= s < cl.subclass_books@.len() ==> (#[trigger] cl.subclass_books@[s] matches Some(b) ==> b < codebooks_len)
                },
            decreases class_count - c,
        {
            let ghost mc = reader@;
            let ghost prevcs = classes@.map_values(|cl: Class| class_view(cl));
            let cl = match Self::read_class(reader, codebooks_len) {
                Ok(cl) => cl,
                Err(e) => {
                    proof {
                        assert(class_spec(mc, cb) is None);
                        assert(classes_at(m3, (c + 1) as nat, cb) is None);
                        lemma_classes_none(m3, (c + 1) as nat, class_count as nat, cb);
                        assert(!floor_ok(m, cb));
                    }
                    return Err(e);
                },
            };
            let ghost before = classes@;
            classes.push(cl);
            proof {
                assert(class_spec(mc, cb) == Some((class_view(cl), reader@)));
                assert(classes@.map_values(|cl: Class| class_view(cl)) =~= prevcs.push(class_view(cl)));
                assert(classes_at(m3, (c + 1) as nat, cb) == Some((prevcs.push(class_view(cl)), reader@)));
            }
            c = c + 1;
        }
        let ghost m4 = reader@;
        let ghost cls = classes@.map_values(|cl: Class| class_view(cl));
        proof {
            lemma2_to64();
            assert(skip_bits(m4, 0) == m4);
        }
        let mult = reader.read_u8_bits(2)? + 1;
        proof {
            lemma_skip_skip(m4, 0, 2);
        }
        let range: u16 = if mult == 1 {
            256
        } else if mult == 2 {
            128
        } else if mult == 3 {
            86
        } else {
            64
        };
        let rangebits = reader.read_u8_bits(4)? as usize;
        proof {
            lemma_skip_skip(m4, 2, 4);
            vstd::bits::lemma_u16_pow2_no_overflow(rangebits as nat);
            vstd::bits::lemma_u16_shl_is_mul(1, rangebits as u16);
            crate::bitstream::lemma_pow2_le(rangebits as nat, 15);
        }
        let ghost m6 = reader@;
        let x_max: u16 = 1u16 << (rangebits as u16);
        let mut x_list: Vec<u16> = Vec::new();
        x_list.push(0);
        x_list.push(x_max);
        let mut p: usize = 0;
        proof {
            assert(part_classes@.take(0) =~= Seq::<usize>::empty());
            assert(x_list@.skip(2) =~= Seq::<u16>::empty());
            assert(floor_parts(m, cb) == floor_after_header(m6, ps, cls, mult as nat, rangebits as nat));
            lemma_dims_total(ps, classes@);
        }
        while p < part_count
            invariant
                reader.wf(),
                p <= part_count,
                part_count == part_classes@.len(),
                part_classes@ == ps,
                classes@.len() == class_count,
                cls == classes@.map_values(|cl: Class| class_view(cl)),
                m == old(reader)@,
                cb == codebooks_len as nat,
                field(m, 0, 16) == 1 && field(m, 16, 5) != 0,
                forall|q: int| 0 <= q < part_count ==> #[trigger] part_classes@[q] < class_count,
                forall|k: int| 0 <= k < class_count ==> 1 <= (#[trigger] classes@[k]).dim_count <= 8,
                rangebits <= 15,
                x_max as nat == pow2(rangebits as nat),
                x_list@.len() == 2 + xs_count(part_classes@.take(p as int), classes@),
                x_list@.len() <= 65,
                x_list@[0] == 0,
                x_list@[1] == x_max,
                forall|i: int| 2 <= i < x_list@.len() ==> #[trigger] x_list@[i] < x_max,
                floor_parts(m, cb) == floor_after_header(m6, ps, cls, mult as nat, rangebits as nat),
                xs_count(ps, classes@) == dims_total(ps, cls),
                xs_at(m6, (x_list@.len() - 2) as nat, rangebits as nat) == Some((x_list@.skip(2), reader@)),
            decreases part_count - p,
        {
            let dim = classes[part_classes[p]].dim_count;
            let mut d: usize = 0;
            let ghost len0 = x_list@.len();
            proof {
                let t = part_classes@.take(p + 1);
                assert(t.drop_last() =~= part_classes@.take(p as int));
                lemma_xs_count_prefix(ps, classes@, (p + 1) as nat);
            }
            while d < dim
                invariant
                    reader.wf(),
                    d <= dim <= 8,
                    x_list@.len() == len0 + d,
                    x_list@.len() <= 65,
                    x_list@[0] == 0,
                    x_list@[1] == x_max,
                    len0 >= 2,
                    rangebits <= 15,
                    x_max as nat == pow2(rangebits as nat),
                    forall|i: int| 2 <= i < x_list@.len() ==> #[trigger] x_list@[i] < x_max,
                    m == old(reader)@,
                cb == codebooks_len as nat,
                field(m, 0, 16) == 1 && field(m, 16, 5) != 0,
                    floor_parts(m, cb) == floor_after_header(m6, ps, cls, mult as nat, rangebits as nat),
                    xs_count(ps, classes@) == dims_total(ps, cls),
                    len0 - 2 + dim <= xs_count(ps, classes@),
                    xs_at(m6, (x_list@.len() - 2) as nat, rangebits as nat) == Some((x_list@.skip(2), reader@)),
                decreases dim - d,
            {
                proof {
                    vstd::arithmetic::power2::lemma_pow2_pos(rangebits as nat);
                }
                let x = match reader.read_u16_bits(rangebits) {
                    Ok(x) => x,
                    Err(e) => {
                        proof {
                            assert(xs_at(m6, (x_list@.len() - 1) as nat, rangebits as nat) is None);
                            if dims_total(ps, cls) <= 63 {
                                lemma_xs_none(m6, (x_list@.len() - 1) as nat, dims_total(ps, cls), rangebits as nat);
                            }
                            assert(!floor_ok(m, cb));
                        }
                        return Err(e);
                    },
                };
                if x_list.len() >= 65 {
                    proof {
                        assert(dims_total(ps, cls) > 63);
                        assert(!floor_ok(m, cb));
                    }
                    return Err(Error::Undecodable("Too many elements in floor X list"));
                }
                let ghost before = x_list@;
                x_list.push(x);
                proof {
                    assert(x_list@.skip(2) =~= before.skip(2).push(x));
                }
                d = d + 1;
            }
            p = p + 1;
        }
        proof {
            assert(part_classes@.take(part_count as int) =~= part_classes@);
            assert(x_list@ =~= seq![0u16, pow2(rangebits as nat) as u16] + x_list@.skip(2));
        }
        let n = x_list.len();
        let mut i: usize = 0;
        while i < n
            invariant
                reader.wf(),
                n == x_list@.len(),
                i <= n,
                m == old(reader)@,
                cb == codebooks_len as nat,
                field(m, 0, 16) == 1 && field(m, 16, 5) != 0,
                floor_parts(m, cb) matches Some((_a, _b, _c, rb, xs)) && x_list@ == seq![0u16, pow2(rb) as u16] + xs,
                forall|a: int, b: int| 0 <= a < b < n && a < i ==> #[trigger] x_list@[a] != #[trigger] x_list@[b],
            decreases n - i,
        {
            let mut j: usize = i + 1;
            while j < n
                invariant
                    reader.wf(),
                    n == x_list@.len(),
                    i < n,
                    i < j <= n,
                    m == old(reader)@,
                cb == codebooks_len as nat,
                field(m, 0, 16) == 1 && field(m, 16, 5) != 0,
                    floor_parts(m, cb) matches Some((_a, _b, _c, rb, xs)) && x_list@ == seq![0u16, pow2(rb) as u16] + xs,
                    forall|a: int, b: int| 0 <= a < b < n && a < i ==> #[trigger] x_list@[a] != #[trigger] x_list@[b],
                    forall|b: int| i < b < j ==> x_list@[i as int] != #[trigger] x_list@[b],
                decreases n - j,
            {
                if x_list[i] == x_list[j] {
                    proof {
                        let (_a, _b, _c, rb, xs) = floor_parts(m, cb).unwrap();
                        assert(!all_distinct(seq![0u16, pow2(rb) as u16] + xs));
                    }
                    return Err(Error::Undecodable("Floor X list contains duplicates"));
                }
                j = j + 1;
            }
            i = i + 1;
        }
        let sorted_x_list = sort_by_x(&x_list);
        let mut neighbors: Vec<(usize, usize)> = Vec::new();
        let mut i: usize = 2;
        while i < x_list.len()
            invariant
                2 <= i <= x_list@.len(),
                x_list@.len() <= 65,
                neighbors@.len() == i - 2,
                x_list@[0] == 0,
                forall|j: int| 2 <= j < x_list@.len() ==> #[trigger] x_list@[j] < x_list@[1],
                forall|a: int, b: int| 0 <= a < b < x_list@.len() ==> #[trigger] x_list@[a] != #[trigger] x_list@[b],
                forall|j: int| 2 <= j < i ==> is_neighbors(x_list@, j, #[trigger] neighbors@[j - 2].0 as int, neighbors@[j - 2].1 as int),
            decreases x_list@.len() - i,
        {
            proof {
                assert(x_list@[0] != x_list@[i as int]);
            }
            neighbors.push(Self::find_neighbors(&x_list, i));
            i = i + 1;
        }
        Ok(Floor { mult, range, part_classes, classes, x_list, sorted_x_list, neighbors })
    }

    fn read_class(reader: &mut BitReader, codebooks_len: usize) -> (r: Result<Class>)
        requires
            old(reader).wf(),
        ensures
            final(reader).wf(),
            r.is_err() && r->Err_0 is Io ==> final(reader)@.len == 0,
            r.is_ok() <==> class_spec(old(reader)@, codebooks_len as nat) is Some,
            r.is_ok() ==> class_spec(old(reader)@, codebooks_len as nat) == Some((class_view(r.unwrap()), final(reader)@)),
            r.is_err() ==> r->Err_0 is Undecodable || r->Err_0 is Io,
            r.is_ok() ==> {
                let cl = r.unwrap();
                &&& 1 <= cl.dim_count <= 8
                &&& cl.subclass_bit_count <= 3
                &&& (cl.master_book is Some <==> cl.subclass_bit_count > 0)
                &&& (cl.master_book matches Some(b) ==> b < codebooks_len)
                &&& cl.subclass_books@.len() == pow2(cl.subclass_bit_count as nat)
                &&& forall|s: int| 0 <= s < cl.subclass_books@.len() ==> (#[trigger] cl.subclass_books@[s] matches Some(b) ==> b < codebooks_len)
            },
    {
        let ghost m = reader@;
        proof {
            lemma2_to64();
        }
        let dim_count = reader.read_u8_bits(3)? as usize + 1;
        let subclass_bit_count = reader.read_u8_bits(2)? as usize;
        let ghost m2 = reader@;
        let master_book = if subclass_bit_count != 0 {
            let master_book = reader.read_u8()? as usize;
            if master_book >= codebooks_len {
                return Err(Error::Undecodable("Invalid codebook index in floor class master book"));
            }
            Some(master_book)
        } else {
            None
        };
        let ghost m3 = reader@;
        let subclass_books_count: usize = if subclass_bit_count == 0 {
            1
        } else if subclass_bit_count == 1 {
            2
        } else if subclass_bit_count == 2 {
            4
        } else {
            8
        };
        proof {
            assert(subclass_books_count == pow2(subclass_bit_count as nat));
        }
        let mut subclass_books: Vec<Option<usize>> = Vec::new();
        let mut s: usize = 0;
        proof {
            assert(subclass_books@ =~= Seq::<Option<usize>>::empty());
            assert(class_spec(m, codebooks_len as nat) == (match books_list_at(m3, subclass_books_count as nat, codebooks_len as nat) {
                Some((bs, m4)) => Some(((dim_count, subclass_bit_count, master_book, bs), m4)),
                None => None,
            }));
        }
        while s < subclass_books_count
            invariant
                reader.wf(),
                s <= subclass_books_count,
                subclass_books@.len() == s,
                forall|t: int| 0 <= t < s ==> (#[trigger] subclass_books@[t] matches Some(b) ==> b < codebooks_len),
                books_list_at(m3, s as nat, codebooks_len as nat) == Some((subclass_books@, reader@)),
                m == old(reader)@,
                class_spec(m, codebooks_len as nat) == (match books_list_at(m3, subclass_books_count as nat, codebooks_len as nat) {
                    Some((bs, m4)) => Some(((dim_count, subclass_bit_count, master_book, bs), m4)),
                    None => None,
                }),
            decreases subclass_books_count - s,
        {
            let v = match reader.read_u8() {
                Ok(v) => v as usize,
                Err(e) => {
                    proof {
                        lemma_books_list_none(m3, (s + 1) as nat, subclass_books_count as nat, codebooks_len as nat);
                    }
                    return Err(e);
                },
            };
            let book = if v == 0 {
                None
            } else {
                if v - 1 >= codebooks_len {
                    proof {
                        lemma_books_list_none(m3, (s + 1) as nat, subclass_books_count as nat, codebooks_len as nat);
                    }
                    return Err(Error::Undecodable("Invalid codebook index in floor subclass books"));
                }
                Some(v - 1)
            };
            subclass_books.push(book);
            s = s + 1;
        }
        Ok(Class { dim_count, subclass_bit_count, master_book, subclass_books })
    }

    /// The neighbors of position `end` among the values before it.
    pub fn find_neighbors(arr: &Vec<u16>, end: usize) -> (r: (usize, usize))
        requires
            2 <= end < arr@.len(),
            arr@[0] < arr@[end as int] < arr@[1],
        ensures
            is_neighbors(arr@, end as int, r.0 as int, r.1 as int),
    {
        let v = arr[end];
        let mut low: usize = 0;
        let mut high: usize = 1;
        let mut i: usize = 0;
        while i < end
            invariant
                end < arr@.len(),
                v == arr@[end as int],
                i <= end,
                low < end,
                high < end,
                arr@[low as int] < v < arr@[high as int],
                forall|j: int| 0 <= j < i && #[trigger] arr@[j] < v ==> arr@[j] <= arr@[low as int],
                forall|j: int| 0 <= j < i && #[trigger] arr@[j] > v ==> arr@[j] >= arr@[high as int],
            decreases end - i,
        {
            let a = arr[i];
            if a < v {
                if a > arr[low] {
                    low = i;
                }
            } else if a > v {
                if a < arr[high] {
                    high = i;
                }
            }
            i = i + 1;
        }
        (low, high)
    }

    /// The predicted amplitude at `x` on the line from `(x0, y0)` to `(x1, y1)`.
    pub fn render_point(x0: i32, y0: i32, x1: i32, y1: i32, x: i32) -> (r: i32)
        requires
            0 <= x0 <= x <= x1 <= 0x8000,
            x0 < x1,
            0 <= y0 <= 0xFFFF,
            0 <= y1 <= 0xFFFF,
        ensures
            r == point_spec(x0 as int, y0 as int, x1 as int, y1 as int, x as int),
            0 <= r <= 0xFFFF,
    {
        let dy = y1 - y0;
        let adx = x1 - x0;
        let ady = if dy < 0 { -dy } else { dy };
        proof {
            assert(ady * (x - x0) <= 0xFFFF * 0x8000) by (nonlinear_arith)
                requires
                    0 <= ady <= 0xFFFF,
                    0 <= x - x0 <= 0x8000,
            ;
            assert(ady * (x - x0) <= ady * adx) by (nonlinear_arith)
                requires
                    0 <= ady,
                    0 <= x - x0 <= adx,
            ;
            vstd::arithmetic::div_mod::lemma_div_is_ordered(ady * (x - x0) as int, ady * adx as int, adx as int);
            vstd::arithmetic::div_mod::lemma_div_multiples_vanish(ady as int, adx as int);
            assert(adx * ady == ady * adx) by (nonlinear_arith);
        }
        let err = ady * (x - x0);
        let off = err / adx;
        if dy < 0 {
            y0 - off
        } else {
            y0 + off
        }
    }

    /// Reads the floor's amplitudes for one channel into `result_y_list`.
    /// Leaves it empty where the channel is unused, or where the packet ends
    /// inside the floor data.
    pub fn begin_decode(&self, result_y_list: &mut Vec<(u16, bool)>, reader: &mut BitReader, codebooks: &Vec<Codebook>) -> (r: Result<()>)
        requires
            self.wf(codebooks@.len()),
            old(reader).wf(),
            forall|i: int| 0 <= i < codebooks@.len() ==> (#[trigger] codebooks@[i]).wf(),
        ensures
            final(reader).wf(),
            r.is_ok() ==> final(result_y_list)@.len() == 0 || final(result_y_list)@.len() == self.x_list@.len(),
            r.is_err() ==> r->Err_0 is Undecodable,
            old(reader)@.len == 0 || field(old(reader)@, 0, 1) == 0 ==> r.is_ok() && final(result_y_list)@.len() == 0,
            floor_coded(*self, codebooks@, old(reader)@) matches Some(coded) ==> r.is_ok()
                && final(result_y_list)@.len() == self.x_list@.len()
                && amplitudes_of(*self, coded.map_values(|v: u16| (v, true)), final(result_y_list)@),
            r.is_ok() && final(result_y_list)@.len() > 0 ==> ({
                let lb = ilog_spec((self.range - 1) as nat);
                &&& field(old(reader)@, 0, 1) == 1
                &&& final(result_y_list)@[0].0 == field(old(reader)@, 1, lb)
                &&& final(result_y_list)@[1].0 == field(old(reader)@, 1 + lb, lb)
            }),
    {
        match self.do_begin_decode(result_y_list, reader, codebooks).expect_eof() {
            Err(e) => {
                if e.kind() == ErrorKind::ExpectedEof {
                    *result_y_list = Vec::new();
                    Ok(())
                } else {
                    Err(e)
                }
            },
            Ok(()) => Ok(()),
        }
    }

    fn do_begin_decode(&self, result_y_list: &mut Vec<(u16, bool)>, reader: &mut BitReader, codebooks: &Vec<Codebook>) -> (r: Result<()>)
        requires
            self.wf(codebooks@.len()),
            old(reader).wf(),
            forall|i: int| 0 <= i < codebooks@.len() ==> (#[trigger] codebooks@[i]).wf(),
        ensures
            final(reader).wf(),
            r.is_ok() ==> final(result_y_list)@.len() == 0 || final(result_y_list)@.len() == self.x_list@.len(),
            r.is_err() ==> r->Err_0 is Undecodable || r->Err_0 is Io,
            old(reader)@.len == 0 ==> r.is_err() && r->Err_0 is Io,
            1 <= old(reader)@.len && field(old(reader)@, 0, 1) == 0 ==> r.is_ok() && final(result_y_list)@.len() == 0,
            r.is_ok() && final(result_y_list)@.len() > 0 ==> ({
                let lb = ilog_spec((self.range - 1) as nat);
                &&& field(old(reader)@, 0, 1) == 1
                &&& final(result_y_list)@[0].0 == field(old(reader)@, 1, lb)
                &&& final(result_y_list)@[1].0 == field(old(reader)@, 1 + lb, lb)
            }),
            floor_coded(*self, codebooks@, old(reader)@) matches Some(coded) ==> r.is_ok()
                && amplitudes_of(*self, coded.map_values(|v: u16| (v, true)), final(result_y_list)@),
    {
        let ghost m = reader@;
        *result_y_list = Vec::new();
        proof {
            lemma2_to64();
            assert(skip_bits(m, 0) == m);
        }
        let non_zero = reader.read_bool()?;
        proof {
            lemma_skip_skip(m, 0, 1);
        }
        if !non_zero {
            return Ok(());
        }
        proof {
            lemma2_to64();
            lemma_ilog_bound((self.range - 1) as nat, 8);
        }
        let len_bits = Bits::ilog(self.range - 1);
        let y0 = reader.read_u16_bits(len_bits)?;
        proof {
            lemma_skip_skip(m, 1, len_bits as nat);
        }
        result_y_list.push((y0, true));
        let y1 = reader.read_u16_bits(len_bits)?;
        proof {
            lemma_skip_skip(m, (1 + len_bits) as nat, len_bits as nat);
        }
        result_y_list.push((y1, true));
        let ghost y01 = (y0, y1);
        let ghost mp0 = reader@;
        proof {
            let lb = ilog_spec((self.range - 1) as nat);
            assert(len_bits == lb);
            assert(mp0 == skip_bits(m, 1 + 2 * lb));
            assert(y01.0 == field(m, 1, lb) as u16);
            assert(y01.1 == field(m, 1 + lb, lb) as u16);
            assert(1 + 2 * lb <= m.len);
            assert(floor_coded(*self, codebooks@, m) == (match parts_ys(*self, codebooks@, mp0, 0) {
                    Some((ys, _m1)) => Some(seq![y01.0, y01.1] + ys),
                    None => None,
                }));
            assert(result_y_list@.skip(2).map_values(|e: (u16, bool)| e.0) =~= Seq::<u16>::empty());
            assert(parts_ys(*self, codebooks@, mp0, 0) == (match parts_ys(*self, codebooks@, reader@, 0) {
                Some((rest, m3)) => Some((result_y_list@.skip(2).map_values(|e: (u16, bool)| e.0) + rest, m3)),
                None => None,
            }));
        }
        let mut p: usize = 0;
        proof {
            assert(self.part_classes@.take(0) =~= Seq::<usize>::empty());
        }
        while p < self.part_classes.len()
            invariant
                self.wf(codebooks@.len()),
                reader.wf(),
                forall|i: int| 0 <= i < codebooks@.len() ==> (#[trigger] codebooks@[i]).wf(),
                p <= self.part_classes@.len(),
                result_y_list@.len() == 2 + xs_count(self.part_classes@.take(p as int), self.classes@),
                result_y_list@[0].0 == y01.0,
                result_y_list@[1].0 == y01.1,
                1 <= m.len && field(m, 0, 1) == 1,
                m == old(reader)@,
                result_y_list@.len() >= 2,
                forall|i: int| 0 <= i < result_y_list@.len() ==> #[trigger] result_y_list@[i].1,
                parts_ys(*self, codebooks@, mp0, 0) == (match parts_ys(*self, codebooks@, reader@, p as nat) {
                    Some((rest, m3)) => Some((result_y_list@.skip(2).map_values(|e: (u16, bool)| e.0) + rest, m3)),
                    None => None,
                }),
                floor_coded(*self, codebooks@, m) == (match parts_ys(*self, codebooks@, mp0, 0) {
                    Some((ys, _m1)) => Some(seq![y01.0, y01.1] + ys),
                    None => None,
                }),
            decreases self.part_classes@.len() - p,
        {
            let class = &self.classes[self.part_classes[p]];
            let nsub = class.subclass_books.len();
            let ghost mpa = reader@;
            let mut cval: usize = match class.master_book {
                Some(b) => codebooks[b].decode_scalar(reader)? as usize,
                None => 0,
            };
            let ghost m1 = reader@;
            let ghost cval0 = cval as nat;
            let ghost before_part = result_y_list@;
            proof {
                assert(dims_ys(*class, codebooks@, m1, cval0, class.dim_count as nat) is None ==> floor_coded(*self, codebooks@, m) is None);
                assert(result_y_list@.skip(before_part.len() as int).map_values(|e: (u16, bool)| e.0) =~= Seq::<u16>::empty());
            }
            proof {
                vstd::arithmetic::power2::lemma_pow2_pos(class.subclass_bit_count as nat);
            }
            let mut d: usize = 0;
            let ghost len0 = result_y_list@.len();
            while d < class.dim_count
                invariant
                    self.wf(codebooks@.len()),
                    reader.wf(),
                    forall|i: int| 0 <= i < codebooks@.len() ==> (#[trigger] codebooks@[i]).wf(),
                    d <= class.dim_count,
                    nsub == class.subclass_books@.len(),
                    nsub >= 1,
                    forall|s: int| 0 <= s < class.subclass_books@.len() ==> (#[trigger] class.subclass_books@[s] matches Some(b) ==> b < codebooks@.len()),
                    result_y_list@.len() == len0 + d,
                    len0 >= 2,
                    result_y_list@[0].0 == y01.0,
                    result_y_list@[1].0 == y01.1,
                    1 <= m.len && field(m, 0, 1) == 1,
                    m == old(reader)@,
                    len0 == before_part.len(),
                    result_y_list@.take(len0 as int) == before_part,
                    forall|i: int| 0 <= i < result_y_list@.len() ==> #[trigger] result_y_list@[i].1,
                    *class == self.classes@[self.part_classes@[p as int] as int],
                    dims_ys(*class, codebooks@, m1, cval0, class.dim_count as nat) is None ==> floor_coded(*self, codebooks@, m) is None,
                    dims_ys(*class, codebooks@, m1, cval0, class.dim_count as nat) == (match dims_ys(*class, codebooks@, reader@, cval as nat, (class.dim_count - d) as nat) {
                        Some((rest, m2)) => Some((result_y_list@.skip(len0 as int).map_values(|e: (u16, bool)| e.0) + rest, m2)),
                        None => None,
                    }),
                decreases class.dim_count - d,
            {
                let ghost md = reader@;
                let ghost cv = cval as nat;
                let ghost prev = result_y_list@;
                let book = class.subclass_books[cval % nsub];
                cval = cval / nsub;
                let y: u32 = match book {
                    Some(b) => codebooks[b].decode_scalar(reader)?,
                    None => 0,
                };
                result_y_list.push((#[verifier::truncate] (y as u16), true));
                proof {
                    assert(result_y_list@.take(len0 as int) =~= before_part);
                    assert(result_y_list@.skip(len0 as int).map_values(|e: (u16, bool)| e.0)
                        =~= prev.skip(len0 as int).map_values(|e: (u16, bool)| e.0).push(y as u16));
                    let rest_after = dims_ys(*class, codebooks@, reader@, cval as nat, (class.dim_count - d - 1) as nat);
                    assert(dims_ys(*class, codebooks@, md, cv, (class.dim_count - d) as nat) == (match rest_after {
                        Some((rest, m2)) => Some((seq![y as u16] + rest, m2)),
                        None => None,
                    }));
                    if let Some((rest, m2)) = rest_after {
                        assert(prev.skip(len0 as int).map_values(|e: (u16, bool)| e.0) + (seq![y as u16] + rest)
                            =~= result_y_list@.skip(len0 as int).map_values(|e: (u16, bool)| e.0) + rest);
                    }
                }
                d = d + 1;
            }
            proof {
                let t = self.part_classes@.take(p + 1);
                assert(t.drop_last() =~= self.part_classes@.take(p as int));
                let dims_part = result_y_list@.skip(before_part.len() as int).map_values(|e: (u16, bool)| e.0);
                assert(dims_ys(*class, codebooks@, reader@, cval as nat, 0) == Some((Seq::<u16>::empty(), reader@)));
                assert(dims_part + Seq::<u16>::empty() =~= dims_part);
                assert(dims_ys(*class, codebooks@, m1, cval0, class.dim_count as nat) == Some((dims_part, reader@)));
                let pr = parts_ys(*self, codebooks@, reader@, (p + 1) as nat);
                assert(parts_ys(*self, codebooks@, mpa, p as nat) == (match pr {
                    Some((rest, m3)) => Some((dims_part + rest, m3)),
                    None => None,
                }));
                let so_far = before_part.skip(2).map_values(|e: (u16, bool)| e.0);
                assert(result_y_list@.skip(2).map_values(|e: (u16, bool)| e.0) =~= so_far + dims_part);
                if let Some((rest, m3)) = pr {
                    assert(so_far + (dims_part + rest) =~= (so_far + dims_part) + rest);
                }
            }
            p = p + 1;
        }
        proof {
            assert(self.part_classes@.take(self.part_classes@.len() as int) =~= self.part_classes@);
        }
        proof {
            assert(parts_ys(*self, codebooks@, reader@, self.part_classes@.len() as nat) == Some((Seq::<u16>::empty(), reader@)));
            let so_far = result_y_list@.skip(2).map_values(|e: (u16, bool)| e.0);
            assert(so_far + Seq::<u16>::empty() =~= so_far);
            if let Some(coded) = floor_coded(*self, codebooks@, m) {
                assert(mp0 == skip_bits(m, 1 + 2 * ilog_spec((self.range - 1) as nat)));
                assert(coded =~= seq![y01.0, y01.1] + so_far);
                assert forall|i: int| 0 <= i < result_y_list@.len() implies #[trigger] result_y_list@[i] == (coded[i], true) by {
                    if i >= 2 {
                        assert(so_far[i - 2] == result_y_list@[i].0);
                    }
                }
                assert(coded.map_values(|v: u16| (v, true)) =~= result_y_list@);
            }
        }
        self.decode_amplitude(result_y_list);
        Ok(())
    }

    /// Replaces the coded values of positions 2 and on by final amplitudes,
    /// each predicted from its two neighbors, and marks the positions in use.
    pub fn decode_amplitude(&self, result_y_list: &mut Vec<(u16, bool)>)
        requires
            self.wf_geometry(),
            old(result_y_list)@.len() == self.x_list@.len(),
        ensures
            final(result_y_list)@.len() == old(result_y_list)@.len(),
            forall|i: int| 0 <= i < 2 ==> #[trigger] final(result_y_list)@[i].0 == old(result_y_list)@[i].0,
            forall|i: int|
                2 <= i < self.x_list@.len() ==> {
                    let (lo, hi) = #[trigger] self.neighbors@[i - 2];
                    let ys = final(result_y_list)@;
                    ys[i].0 == (amplitude_spec(
                        self.range as int,
                        point_spec(
                            self.x_list@[lo as int] as int,
                            ys[lo as int].0 as int,
                            self.x_list@[hi as int] as int,
                            ys[hi as int].0 as int,
                            self.x_list@[i] as int,
                        ),
                        old(result_y_list)@[i].0 as int,
                    ) as u16)
                },
            forall|i: int| 0 <= i < self.x_list@.len() ==> #[trigger] final(result_y_list)@[i].1 == used_after(
                old(result_y_list)@,
                self.neighbors@,
                i,
                self.x_list@.len(),
            ),
            amplitudes_of(*self, old(result_y_list)@, final(result_y_list)@),
    {
        let n = result_y_list.len();
        let mut i: usize = 2;
        let ghost old_ys = result_y_list@;
        while i < n
            invariant
                self.wf_geometry(),
                n == result_y_list@.len(),
                n == self.x_list@.len(),
                n == old_ys.len(),
                2 <= i <= n,
                forall|j: int| i <= j < n ==> #[trigger] result_y_list@[j].0 == old_ys[j].0,
                forall|j: int| 0 <= j < 2 ==> #[trigger] result_y_list@[j].0 == old_ys[j].0,
                forall|j: int|
                    2 <= j < i ==> {
                        let (lo, hi) = #[trigger] self.neighbors@[j - 2];
                        let ys = result_y_list@;
                        ys[j].0 == (amplitude_spec(
                            self.range as int,
                            point_spec(
                                self.x_list@[lo as int] as int,
                                ys[lo as int].0 as int,
                                self.x_list@[hi as int] as int,
                                ys[hi as int].0 as int,
                                self.x_list@[j] as int,
                            ),
                            old_ys[j].0 as int,
                        ) as u16)
                    },
                forall|j: int| 0 <= j < n ==> #[trigger] result_y_list@[j].1 == used_after(old_ys, self.neighbors@, j, i as nat),
            decreases n - i,
        {
            let (low_neighbor, high_neighbor) = self.neighbors[i - 2];
            proof {
                assert(is_neighbors(self.x_list@, i as int, low_neighbor as int, high_neighbor as int));
            }
            let ghost before = result_y_list@;
            let predicted = Self::render_point(
                self.x_list[low_neighbor] as i32,
                result_y_list[low_neighbor].0 as i32,
                self.x_list[high_neighbor] as i32,
                result_y_list[high_neighbor].0 as i32,
                self.x_list[i] as i32,
            );
            let high_room = self.range as i32 - predicted;
            let low_room = predicted;
            let room = if high_room < low_room {
                high_room * 2
            } else {
                low_room * 2
            };
            let y = result_y_list[i].0 as i32;
            let final_y = if y != 0 {
                let (v, _) = result_y_list[low_neighbor];
                result_y_list.set(low_neighbor, (v, true));
                let (v, _) = result_y_list[high_neighbor];
                result_y_list.set(high_neighbor, (v, true));
                if y >= room {
                    if high_room > low_room {
                        predicted + y - low_room
                    } else {
                        predicted - y + high_room - 1
                    }
                } else {
                    if y % 2 == 0 {
                        predicted + y / 2
                    } else {
                        predicted - (y + 1) / 2
                    }
                }
            } else {
                predicted
            };
            result_y_list.set(i, (#[verifier::truncate] (final_y as u16), y != 0));
            proof {
                assert(old_ys[i as int].0 == before[i as int].0);
                assert forall|j: int| 0 <= j < n implies #[trigger] result_y_list@[j].1 == used_after(old_ys, self.neighbors@, j, (i + 1) as nat) by {
                    assert(self.neighbors@[(i + 1) - 3] == (low_neighbor, high_neighbor));
                    assert(used_after(old_ys, self.neighbors@, j, i as nat) == before[j].1);
                    if j == i {
                        lemma_marked_none(old_ys, self.neighbors@, j, i as nat);
                    }
                }
                assert forall|j: int| 2 <= j < i + 1 implies {
                    let (lo, hi) = #[trigger] self.neighbors@[j - 2];
                    let ys = result_y_list@;
                    ys[j].0 == (amplitude_spec(
                        self.range as int,
                        point_spec(
                            self.x_list@[lo as int] as int,
                            ys[lo as int].0 as int,
                            self.x_list@[hi as int] as int,
                            ys[hi as int].0 as int,
                            self.x_list@[j] as int,
                        ),
                        old_ys[j].0 as int,
                    ) as u16)
                } by {
                    let (lo, hi) = self.neighbors@[j - 2];
                    assert(is_neighbors(self.x_list@, j, lo as int, hi as int));
                    assert(result_y_list@[lo as int].0 == before[lo as int].0);
                    assert(result_y_list@[hi as int].0 == before[hi as int].0);
                    if j < i {
                        assert(result_y_list@[j].0 == before[j].0);
                    }
                }
            }
            i = i + 1;
        }
    }
}


impl Floor {
    /// The envelope over the first `n` samples as indices into the inverse
    /// dB table: lines between consecutive used points in X order, held flat
    /// after the last one. Fails where an index leaves 0..=255.
    pub fn render_db(&self, y_list: &Vec<(u16, bool)>, n: usize) -> (r: Result<Vec<u8>>)
        requires
            self.wf_geometry(),
            y_list@.len() == self.x_list@.len(),
            n <= 0x8000,
        ensures
            r.is_ok() ==> r.unwrap()@.len() == n,
            r.is_ok() <==> envelope_in_range(self.sorted_x_list@, y_list@, self.mult as int, n as int),
            r.is_ok() ==> forall|z: int| 0 <= z < n ==> #[trigger] r.unwrap()@[z] as int == envelope(
                self.sorted_x_list@,
                y_list@,
                self.mult as int,
                n as int,
                z,
            ),
            r.is_err() ==> r->Err_0 is Undecodable,
    {
        let mut out: Vec<u8> = vec![0u8; n];
        let mult = self.mult as i32;
        let mut hx: i32 = 0;
        let mut hy: i32 = 0;
        let mut lx: i32 = 0;
        let first = self.sorted_x_list[0].0;
        let y_first = y_list[first].0 as i32;
        proof {
            assert(y_first * mult <= 0xFFFF * 4) by (nonlinear_arith)
                requires
                    0 <= y_first <= 0xFFFF,
                    1 <= mult <= 4,
            ;
            assert(y_first * mult >= 0) by (nonlinear_arith)
                requires
                    0 <= y_first,
                    1 <= mult,
            ;
        }
        let mut ly: i32 = y_first * mult;
        let mut k: usize = 1;
        while k < self.sorted_x_list.len()
            invariant
                self.wf_geometry(),
                y_list@.len() == self.x_list@.len(),
                out@.len() == n,
                n <= 0x8000,
                1 <= mult <= 4,
                0 <= lx <= 0x8000,
                0 <= hx <= 0x8000,
                0 <= ly <= 0x3FFFF,
                0 <= hy <= 0x3FFFF,
                k >= 1,
                k <= self.sorted_x_list@.len(),
                mult == self.mult as int,
                lx == hx,
                (lx as int, ly as int, hx as int, hy as int) == walk(self.sorted_x_list@, y_list@, mult as int, k as nat),
                forall|z: int| 0 <= z < n ==> #[trigger] out@[z] as int == drawn_or_zero(self.sorted_x_list@, y_list@, mult as int, k as nat, z),
                lines_in_range(self.sorted_x_list@, y_list@, mult as int, k as nat),
            decreases self.sorted_x_list@.len() - k,
        {
            let (i, x) = self.sorted_x_list[k];
            proof {
                assert(self.sorted_x_list@[k as int - 1].1 <= self.sorted_x_list@[k as int].1);
                assert(x == self.x_list@[i as int]);
                assert(self.x_list@[i as int] <= 0x8000) by {
                    if i >= 2 {
                        assert(self.x_list@[i as int] < self.x_list@[1]);
                    }
                }
            }
            let y = y_list[i];
            if y.1 {
                let yv = y.0 as i32;
                proof {
                    assert(yv * mult <= 0xFFFF * 4) by (nonlinear_arith)
                        requires
                            0 <= yv <= 0xFFFF,
                            1 <= mult <= 4,
                    ;
                    assert(yv * mult >= 0) by (nonlinear_arith)
                        requires
                            0 <= yv,
                            1 <= mult,
                    ;
                }
                hy = yv * mult;
                hx = x as i32;
                if lx < hx {
                    let res = render_line(&mut out, lx, ly, hx, hy);
                    if let Err(e) = res {
                        proof {
                            assert(!lines_in_range(self.sorted_x_list@, y_list@, mult as int, (k + 1) as nat));
                            if lines_in_range(self.sorted_x_list@, y_list@, mult as int, self.sorted_x_list@.len()) {
                                lemma_lines_in_range_prefix(self.sorted_x_list@, y_list@, mult as int, (k + 1) as nat, self.sorted_x_list@.len());
                            }
                        }
                        return Err(e);
                    }
                }
                lx = hx;
                ly = hy;
            }
            proof {
                assert(self.sorted_x_list@[(k + 1) - 1] == (i, x));
            }
            k = k + 1;
        }
        let ghost before = out@;
        if (hx as usize) < n {
            proof {
                assert forall|x: int| hx <= x < n implies #[trigger] point_spec(hx as int, hy as int, n as int, hy as int, x) == hy by {
                    lemma_flat_line(hx as int, hy as int, n as int, x);
                }
                if hy <= 255 {
                    assert(line_in_range(hx as int, hy as int, n as int, hy as int));
                } else {
                    assert(point_spec(hx as int, hy as int, n as int, hy as int, hx as int) == hy);
                }
            }
            render_line(&mut out, hx, hy, n as i32, hy)?;
        }
        proof {
            assert forall|z: int| 0 <= z < n implies #[trigger] out@[z] as int == envelope(
                self.sorted_x_list@,
                y_list@,
                self.mult as int,
                n as int,
                z,
            ) by {
                if hx <= z < n {
                    lemma_flat_line(hx as int, hy as int, n as int, z);
                }
            }
        }
        Ok(out)
    }
}

/// Where the renderer stands after the first `k` entries of the sorted X
/// list: `(lx, ly, hx, hy)`, the last used point twice (with amplitudes
/// scaled by `mult`), starting from the first entry.
pub open spec fn walk(sorted: Seq<(usize, u16)>, ys: Seq<(u16, bool)>, mult: int, k: nat) -> (int, int, int, int)
    decreases k,
{
    if k <= 1 {
        (0, ys[sorted[0].0 as int].0 * mult, 0, 0)
    } else {
        let p = walk(sorted, ys, mult, (k - 1) as nat);
        let e = sorted[k - 1];
        if ys[e.0 as int].1 {
            (e.1 as int, ys[e.0 as int].0 * mult, e.1 as int, ys[e.0 as int].0 * mult)
        } else {
            p
        }
    }
}

/// The value that the first `k` entries draw at sample `z`: the line from
/// the previous used point to the used point that covers `z`, 0 where none does.
pub open spec fn drawn_or_zero(sorted: Seq<(usize, u16)>, ys: Seq<(u16, bool)>, mult: int, k: nat, z: int) -> int
    decreases k,
{
    if k <= 1 {
        0
    } else {
        let p = walk(sorted, ys, mult, (k - 1) as nat);
        let e = sorted[k - 1];
        let yv = ys[e.0 as int].0 * mult;
        if ys[e.0 as int].1 && p.0 < e.1 && p.0 <= z < e.1 {
            point_spec(p.0, p.1, e.1 as int, yv, z)
        } else {
            drawn_or_zero(sorted, ys, mult, (k - 1) as nat, z)
        }
    }
}

/// The floor envelope at sample `z` of `n`: the lines between used points,
/// then flat at the last used amplitude up to `n`.
pub open spec fn envelope(sorted: Seq<(usize, u16)>, ys: Seq<(u16, bool)>, mult: int, n: int, z: int) -> int {
    let w = walk(sorted, ys, mult, sorted.len());
    if w.2 <= z < n {
        w.3
    } else {
        drawn_or_zero(sorted, ys, mult, sorted.len(), z)
    }
}

/// Every value of the line from `(x0, y0)` to `(x1, y1)` (excluding `x1`)
/// is an index of the inverse dB table.
pub open spec fn line_in_range(x0: int, y0: int, x1: int, y1: int) -> bool {
    forall|x: int| x0 <= x < x1 ==> 0 <= #[trigger] point_spec(x0, y0, x1, y1, x) <= 255
}

/// The lines that the first `k` entries of the sorted X list draw stay in
/// the inverse dB table.
pub open spec fn lines_in_range(sorted: Seq<(usize, u16)>, ys: Seq<(u16, bool)>, mult: int, k: nat) -> bool
    decreases k,
{
    if k <= 1 {
        true
    } else {
        let p = walk(sorted, ys, mult, (k - 1) as nat);
        let e = sorted[k - 1];
        &&& lines_in_range(sorted, ys, mult, (k - 1) as nat)
        &&& (ys[e.0 as int].1 && p.0 < e.1 ==> line_in_range(p.0, p.1, e.1 as int, ys[e.0 as int].0 * mult))
    }
}

/// The whole envelope over `n` samples stays in the inverse dB table.
pub open spec fn envelope_in_range(sorted: Seq<(usize, u16)>, ys: Seq<(u16, bool)>, mult: int, n: int) -> bool {
    let w = walk(sorted, ys, mult, sorted.len());
    &&& lines_in_range(sorted, ys, mult, sorted.len())
    &&& (w.2 < n ==> w.3 <= 255)
}

proof fn lemma_lines_in_range_prefix(sorted: Seq<(usize, u16)>, ys: Seq<(u16, bool)>, mult: int, j: nat, k: nat)
    requires
        j <= k,
        lines_in_range(sorted, ys, mult, k),
    ensures
        lines_in_range(sorted, ys, mult, j),
    decreases k,
{
    if j < k {
        lemma_lines_in_range_prefix(sorted, ys, mult, j, (k - 1) as nat);
    }
}

/// A flat line stays at its height.
proof fn lemma_flat_line(x0: int, y: int, x1: int, x: int)
    requires
        x0 < x1,
    ensures
        point_spec(x0, y, x1, y, x) == y,
{
    assert(0 * (x - x0) == 0);
    vstd::arithmetic::div_mod::lemma_div_of0(x1 - x0);
}

/// Writes the line from `(x0, y0)` to `(x1, y1)` (excluding `x1`) into
/// `out`, sample by sample, by integer steps; samples beyond `out` are
/// skipped. Each sample written is the line's value there, as
/// [`point_spec`] rounds it. Fails where a value leaves 0..=255.
pub fn render_line(out: &mut Vec<u8>, x0: i32, y0: i32, x1: i32, y1: i32) -> (r: Result<()>)
    requires
        0 <= x0 < x1 <= 0x8000,
        0 <= y0 <= 0x3FFFF,
        0 <= y1 <= 0x3FFFF,
    ensures
        final(out)@.len() == old(out)@.len(),
        r.is_err() ==> r->Err_0 is Undecodable,
        r.is_ok() <==> line_in_range(x0 as int, y0 as int, x1 as int, y1 as int),
        r.is_ok() ==> forall|x: int|
            0 <= x < old(out)@.len() ==> #[trigger] final(out)@[x] as int == (if x0 <= x < x1 {
                point_spec(x0 as int, y0 as int, x1 as int, y1 as int, x)
            } else {
                old(out)@[x] as int
            }),
{
    let dy = y1 - y0;
    let adx = x1 - x0;
    let abs_dy = if dy < 0 { -dy } else { dy };
    let abs_base = abs_dy / adx;
    let base = if dy < 0 { -abs_base } else { abs_base };
    proof {
        vstd::arithmetic::div_mod::lemma_fundamental_div_mod(abs_dy as int, adx as int);
        vstd::arithmetic::div_mod::lemma_div_is_ordered_by_denominator(abs_dy as int, 1, adx as int);
        assert(abs_base * adx <= abs_dy) by (nonlinear_arith)
            requires
                abs_dy == adx * abs_base + abs_dy % adx,
                abs_dy % adx >= 0,
        ;
    }
    let ady = abs_dy - abs_base * adx;
    proof {
        vstd::arithmetic::div_mod::lemma_mod_bound(abs_dy as int, adx as int);
        assert(ady == abs_dy % adx) by (nonlinear_arith)
            requires
                abs_dy == adx * abs_base + abs_dy % adx,
                ady == abs_dy - abs_base * adx,
        ;
    }
    let sy = if dy < 0 { base - 1 } else { base + 1 };
    let len = out.len();
    proof {
        lemma_line_step_zero(x0 as int, y0 as int, x1 as int, y1 as int);
    }
    if y0 > 255 {
        proof {
            assert(!(0 <= point_spec(x0 as int, y0 as int, x1 as int, y1 as int, x0 as int) <= 255));
        }
        return Err(Error::Undecodable("Floor amplitude out of range"));
    }
    let ghost old_out = out@;
    let ghost sign: int = if dy < 0 { -1 } else { 1 };
    proof {
        lemma_line_step_zero(x0 as int, y0 as int, x1 as int, y1 as int);
        vstd::arithmetic::div_mod::lemma_small_mod(0nat, adx as nat);
    }
    if (x0 as usize) < len {
        out.set(x0 as usize, y0 as u8);
    }
    let mut y = y0;
    let mut err: i32 = 0;
    let mut x = x0 + 1;
    proof {
        assert(x - 1 - x0 == 0);
        assert(((x - 1 - x0) * ady) as int == 0) by (nonlinear_arith)
            requires
                x - 1 - x0 == 0,
        ;
        assert((((x - 1 - x0) * ady) as int) % (adx as int) == 0);
    }
    while x < x1
        invariant
            out@.len() == len,
            len == old(out)@.len(),
            old_out == old(out)@,
            0 <= x0 < x <= x1 <= 0x8000,
            0 <= y <= 255,
            0 <= err < adx,
            0 <= ady < adx,
            adx == x1 - x0,
            adx <= 0x8000,
            abs_dy == (if y1 - y0 < 0 { y0 - y1 } else { y1 - y0 }),
            abs_dy == abs_base * adx + ady,
            base == sign * abs_base,
            sign == (if y1 - y0 < 0 { -1int } else { 1int }),
            sy == sign * (abs_base + 1),
            0 <= abs_base <= 0x3FFFF,
            y == point_spec(x0 as int, y0 as int, x1 as int, y1 as int, (x - 1) as int),
            err == (((x - 1 - x0) * ady) as int) % (adx as int),
            forall|w: int| x0 <= w < x ==> 0 <= #[trigger] point_spec(x0 as int, y0 as int, x1 as int, y1 as int, w) <= 255,
            forall|z: int|
                0 <= z < len ==> #[trigger] out@[z] as int == (if x0 <= z < x {
                    point_spec(x0 as int, y0 as int, x1 as int, y1 as int, z)
                } else {
                    old_out[z] as int
                }),
        decreases x1 - x,
    {
        proof {
            lemma_line_step(x0 as int, y0 as int, x1 as int, y1 as int, (x - 1 - x0) as int, abs_base as int, ady as int);
        }
        err = err + ady;
        if err >= adx {
            err = err - adx;
            y = y + sy;
        } else {
            y = y + base;
        }
        if y < 0 || y > 255 {
            proof {
                assert(x0 + (x - 1 - x0) + 1 == x);
                assert(!(0 <= point_spec(x0 as int, y0 as int, x1 as int, y1 as int, x as int) <= 255));
            }
            return Err(Error::Undecodable("Floor amplitude out of range"));
        }
        proof {
            assert(x0 + (x - 1 - x0) + 1 == x);
            assert(y == point_spec(x0 as int, y0 as int, x1 as int, y1 as int, x as int));
        }
        let ghost before = out@;
        let xi = x as usize;
        assert(xi as int == x as int);
        if xi < len {
            out.set(xi, y as u8);
        }
        proof {
            assert forall|z: int| 0 <= z < len implies #[trigger] out@[z] as int == (if x0 <= z < x + 1 {
                point_spec(x0 as int, y0 as int, x1 as int, y1 as int, z)
            } else {
                old_out[z] as int
            }) by {
                if z != xi as int {
                    assert(out@[z] == before[z]);
                }
            }
        }
        x = x + 1;
    }
    Ok(())
}

/// The line's value at its start is its start value.
proof fn lemma_line_step_zero(x0: int, y0: int, x1: int, y1: int)
    requires
        x0 < x1,
    ensures
        point_spec(x0, y0, x1, y1, x0) == y0,
{
    let dy = y1 - y0;
    let ady = if dy < 0 { -dy } else { dy };
    assert(ady * (x0 - x0) == 0);
    vstd::arithmetic::div_mod::lemma_div_of0(x1 - x0);
}

/// One step of the line: from sample `x0 + k` to `x0 + k + 1`, the value
/// moves by the whole part of the slope, plus one where the remainders add
/// up to a whole.
proof fn lemma_line_step(x0: int, y0: int, x1: int, y1: int, k: int, abs_base: int, ady: int)
    requires
        x0 < x1,
        0 <= k,
        abs_base >= 0,
        0 <= ady < x1 - x0,
        (if y1 - y0 < 0 { y0 - y1 } else { y1 - y0 }) == abs_base * (x1 - x0) + ady,
    ensures
        ({
            let adx = x1 - x0;
            let sign: int = if y1 - y0 < 0 { -1 } else { 1 };
            let err = (k * ady) % adx;
            &&& err + ady >= adx ==> point_spec(x0, y0, x1, y1, x0 + k + 1) == point_spec(x0, y0, x1, y1, x0 + k) + sign * (abs_base + 1)
                && ((k + 1) * ady) % adx == err + ady - adx
            &&& err + ady < adx ==> point_spec(x0, y0, x1, y1, x0 + k + 1) == point_spec(x0, y0, x1, y1, x0 + k) + sign * abs_base
                && ((k + 1) * ady) % adx == err + ady
        }),
{
    let adx = x1 - x0;
    let abs_dy = abs_base * adx + ady;
    let q = (k * ady) / adx;
    let e = (k * ady) % adx;
    vstd::arithmetic::div_mod::lemma_fundamental_div_mod(k * ady, adx);
    vstd::arithmetic::div_mod::lemma_mod_bound(k * ady, adx);
    assert(k * ady >= 0) by (nonlinear_arith)
        requires
            k >= 0,
            ady >= 0,
    ;
    // Value at step k: (k * abs_dy) / adx = k * abs_base + q.
    assert(k * abs_dy == adx * (k * abs_base + q) + e) by (nonlinear_arith)
        requires
            abs_dy == abs_base * adx + ady,
            k * ady == adx * q + e,
    ;
    assert(k * abs_dy == (k * abs_base + q) * adx + e) by (nonlinear_arith)
        requires
            k * abs_dy == adx * (k * abs_base + q) + e,
    ;
    vstd::arithmetic::div_mod::lemma_fundamental_div_mod_converse(k * abs_dy, adx, k * abs_base + q, e);
    assert((k + 1) * abs_dy == k * abs_dy + abs_dy) by (nonlinear_arith);
    assert((k + 1) * ady == k * ady + ady) by (nonlinear_arith);
    if e + ady >= adx {
        assert((k + 1) * abs_dy == (k * abs_base + q + abs_base + 1) * adx + (e + ady - adx)) by (nonlinear_arith)
            requires
                abs_dy == abs_base * adx + ady,
                k * abs_dy == adx * (k * abs_base + q) + e,
                (k + 1) * abs_dy == k * abs_dy + abs_dy,
        ;
        assert((k + 1) * ady == (q + 1) * adx + (e + ady - adx)) by (nonlinear_arith)
            requires
                k * ady == adx * q + e,
                (k + 1) * ady == k * ady + ady,
        ;
        vstd::arithmetic::div_mod::lemma_fundamental_div_mod_converse((k + 1) * abs_dy, adx, k * abs_base + q + abs_base + 1, e + ady - adx);
        vstd::arithmetic::div_mod::lemma_fundamental_div_mod_converse((k + 1) * ady, adx, q + 1, e + ady - adx);
    } else {
        assert((k + 1) * abs_dy == (k * abs_base + q + abs_base) * adx + (e + ady)) by (nonlinear_arith)
            requires
                abs_dy == abs_base * adx + ady,
                k * abs_dy == adx * (k * abs_base + q) + e,
                (k + 1) * abs_dy == k * abs_dy + abs_dy,
        ;
        assert((k + 1) * ady == q * adx + (e + ady)) by (nonlinear_arith)
            requires
                k * ady == adx * q + e,
                (k + 1) * ady == k * ady + ady,
        ;
        vstd::arithmetic::div_mod::lemma_fundamental_div_mod_converse((k + 1) * abs_dy, adx, k * abs_base + q + abs_base, e + ady);
        vstd::arithmetic::div_mod::lemma_fundamental_div_mod_converse((k + 1) * ady, adx, q, e + ady);
    }
    assert(x0 + k + 1 - x0 == k + 1);
    assert(x0 + k - x0 == k);
    assert(abs_dy * (k + 1) == (k + 1) * abs_dy) by (nonlinear_arith);
    assert(abs_dy * k == k * abs_dy) by (nonlinear_arith);
    let dy = y1 - y0;
    let off_k = (abs_dy * k) / adx;
    let off_k1 = (abs_dy * (k + 1)) / adx;
    assert(point_spec(x0, y0, x1, y1, x0 + k) == if dy < 0 { y0 - off_k } else { y0 + off_k });
    assert(point_spec(x0, y0, x1, y1, x0 + k + 1) == if dy < 0 { y0 - off_k1 } else { y0 + off_k1 });
    assert(off_k == k * abs_base + q);
    let c: int = if e + ady >= adx { 1 } else { 0 };
    assert(off_k1 == off_k + abs_base + c);
    if dy < 0 {
        assert(-1 * (abs_base + c) == -(abs_base + c));
    } else {
        assert(1 * (abs_base + c) == abs_base + c);
    }
}

/// The positions of `xs`, ordered by value (ties keep their order).
fn sort_by_x(xs: &Vec<u16>) -> (r: Vec<(usize, u16)>)
    ensures
        r@.len() == xs@.len(),
        forall|k: int| 0 <= k < r@.len() ==> (#[trigger] r@[k]).0 < xs@.len() && r@[k].1 == xs@[r@[k].0 as int],
        forall|k: int| 0 < k < r@.len() ==> #[trigger] r@[k - 1].1 <= r@[k].1,
{
    let mut r: Vec<(usize, u16)> = Vec::new();
    let n = xs.len();
    let mut i: usize = 0;
    while i < n
        invariant
            n == xs@.len(),
            i <= n,
            r@.len() == i,
            forall|k: int| 0 <= k < r@.len() ==> (#[trigger] r@[k]).0 < xs@.len() && r@[k].1 == xs@[r@[k].0 as int],
            forall|k: int| 0 < k < r@.len() ==> #[trigger] r@[k - 1].1 <= r@[k].1,
        decreases n - i,
    {
        r.push((i, xs[i]));
        let mut j = i;
        while j > 0 && r[j - 1].1 > r[j].1
            invariant
                n == xs@.len(),
                j <= i < n,
                r@.len() == i + 1,
                forall|k: int| 0 <= k < r@.len() ==> (#[trigger] r@[k]).0 < xs@.len() && r@[k].1 == xs@[r@[k].0 as int],
                forall|k: int| 0 < k <= i && k != j ==> #[trigger] r@[k - 1].1 <= r@[k].1,
                0 < j < i ==> r@[j - 1].1 <= r@[j + 1].1,
            decreases j,
        {
            let a = r[j - 1];
            let b = r[j];
            r.set(j - 1, b);
            r.set(j, a);
            j = j - 1;
        }
        i = i + 1;
    }
    r
}

} // verus!
