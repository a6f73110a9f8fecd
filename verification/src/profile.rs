//! Counters of what a run executed: one per kind of instruction, and one
//! per loop body.

use vstd::prelude::*;
use vstd::arithmetic::div_mod::lemma_fundamental_div_mod_converse;
use std::collections::HashMap;
use crate::isa::BFIsa;

verus! {

broadcast use vstd::std_specs::hash::group_hash_axioms;

/// A loop body: the index of its `Jmp`, and the index behind its `Ret`.
pub type Body = (usize, usize);

/// The counts of the loop bodies, one for each body that was repeated. The
/// bodies are the keys of a hash map, each as one number.
#[derive(Debug)]
pub struct LoopTable {
    map: HashMap<u128, usize>,
}

/// The number that stands for the body `key`: its start above its end.
pub open spec fn pack(key: Body) -> u128 {
    (key.0 * 0x1_0000_0000_0000_0000 + key.1) as u128
}

/// The body that the number `k` stands for.
pub open spec fn unpack(k: u128) -> Body {
    ((k / 0x1_0000_0000_0000_0000) as usize, (k % 0x1_0000_0000_0000_0000) as usize)
}

/// Every key of `m` stands for a body.
pub open spec fn keyed_by_bodies(m: Map<u128, usize>) -> bool {
    forall|k: u128| #[trigger] m.contains_key(k) ==> pack(unpack(k)) == k
}

/// The counts that `m` holds, by loop body.
pub open spec fn counts(m: Map<u128, usize>) -> Map<Body, usize> {
    Map::new(|key: Body| m.contains_key(pack(key)), |key: Body| m[pack(key)])
}

/// A count one higher, unless it is the highest there is.
pub open spec fn bumped(c: int, max: int) -> int {
    if c < max {
        c + 1
    } else {
        c
    }
}

/// The count of the body `key` in `m`: 0 where it has none.
pub open spec fn count_in(m: Map<Body, usize>, key: Body) -> usize {
    if m.contains_key(key) {
        m[key]
    } else {
        0
    }
}

/// A body is found again in the number that stands for it.
pub proof fn lemma_unpack_pack(key: Body)
    ensures
        unpack(pack(key)) == key,
        pack(unpack(pack(key))) == pack(key),
{
    let n = key.0 * 0x1_0000_0000_0000_0000 + key.1;
    assert(0 <= n <= u128::MAX);
    assert(n / 0x1_0000_0000_0000_0000 == key.0 && n % 0x1_0000_0000_0000_0000 == key.1) by {
        lemma_fundamental_div_mod_converse(
            n,
            0x1_0000_0000_0000_0000,
            key.0 as int,
            key.1 as int,
        );
    }
}

/// The number that stands for the body from `start` to `end`.
pub fn key_of(start: usize, end: usize) -> (k: u128)
    ensures
        k == pack((start, end)),
{
    (start as u128) * 0x1_0000_0000_0000_0000u128 + (end as u128)
}

/// The body that the number `k` stands for.
pub fn body_of(k: u128) -> (body: Body)
    ensures
        body == unpack(k),
{
    ((k / 0x1_0000_0000_0000_0000u128) as usize, (k % 0x1_0000_0000_0000_0000u128) as usize)
}

impl View for LoopTable {
    type V = Map<Body, usize>;

    closed spec fn view(&self) -> Map<Body, usize> {
        counts(self.map@)
    }
}

impl LoopTable {
    #[verifier::type_invariant]
    closed spec fn inv(&self) -> bool {
        keyed_by_bodies(self.map@)
    }

    /// A table without counts.
    pub fn new() -> (t: LoopTable)
        ensures
            t@ == Map::<Body, usize>::empty(),
    {
        let t = LoopTable { map: HashMap::new() };
        assert(t@ =~= Map::<Body, usize>::empty());
        t
    }

    /// The counts as the hash map holds them: one entry for each body that
    /// has a count, under the number that stands for the body.
    pub fn table(&self) -> (m: &HashMap<u128, usize>)
        ensures
            counts(m@) == self@,
            keyed_by_bodies(m@),
    {
        proof {
            use_type_invariant(self);
        }
        &self.map
    }

    /// The count of the body from `start` to `end`.
    pub fn count(&self, start: usize, end: usize) -> (c: usize)
        ensures
            c == count_in(self@, (start, end)),
    {
        let k = key_of(start, end);
        match self.map.get(&k) {
            Some(c) => *c,
            None => 0,
        }
    }

    /// Counts one more repetition of the body from `start` to `end`.
    pub fn bump(&mut self, start: usize, end: usize)
        ensures
            final(self)@ == old(self)@.insert(
                (start, end),
                bumped(count_in(old(self)@, (start, end)) as int, usize::MAX as int) as usize,
            ),
    {
        proof {
            use_type_invariant(&*self);
        }
        let c = self.count(start, end);
        let next = if c < usize::MAX {
            c + 1
        } else {
            c
        };
        let k = key_of(start, end);
        let mut map: HashMap<u128, usize> = HashMap::new();
        std::mem::swap(&mut self.map, &mut map);
        let ghost before = map@;
        map.insert(k, next);
        proof {
            lemma_unpack_pack((start, end));
            assert forall|key: Body| key != (start, end) implies #[trigger] pack(key) != pack(
                (start, end),
            ) by {
                lemma_unpack_pack(key);
            }
            assert(counts(map@) =~= counts(before).insert((start, end), next));
        }
        self.map = map;
    }
}

/// What a run executed: how many instructions of each kind, and how often
/// each loop body was repeated. A count that reaches the highest number of
/// its type stays there.
#[derive(Debug)]
pub struct Profile {
    /// The number of `Incr`s.
    pub arith: u64,
    /// The number of `Mv`s.
    pub mv: u64,
    /// The number of `In`s.
    pub inp: u64,
    /// The number of `Out`s.
    pub out: u64,
    /// The number of `Jmp`s.
    pub jmp: u64,
    /// The number of `Ret`s.
    pub ret: u64,
    /// The number of `LoopSetZero`s.
    pub loopsetz: u64,
    /// The number of `LoopMvPtr`s.
    pub loopmvptr: u64,
    /// The number of `LoopMvData`s.
    pub loopmvdata: u64,
    /// The number of `Ret`s, by loop body.
    pub loops: LoopTable,
}

/// The counts of a `Profile`.
pub struct Tally {
    /// The number of `Incr`s.
    pub arith: u64,
    /// The number of `Mv`s.
    pub mv: u64,
    /// The number of `In`s.
    pub inp: u64,
    /// The number of `Out`s.
    pub out: u64,
    /// The number of `Jmp`s.
    pub jmp: u64,
    /// The number of `Ret`s.
    pub ret: u64,
    /// The number of `LoopSetZero`s.
    pub loopsetz: u64,
    /// The number of `LoopMvPtr`s.
    pub loopmvptr: u64,
    /// The number of `LoopMvData`s.
    pub loopmvdata: u64,
    /// The number of `Ret`s, by loop body.
    pub loops: Map<(usize, usize), usize>,
}

/// A counter one higher.
pub open spec fn tick(c: u64) -> u64 {
    bumped(c as int, u64::MAX as int) as u64
}

/// No counts.
pub open spec fn no_tally() -> Tally {
    Tally {
        arith: 0,
        mv: 0,
        inp: 0,
        out: 0,
        jmp: 0,
        ret: 0,
        loopsetz: 0,
        loopmvptr: 0,
        loopmvdata: 0,
        loops: Map::empty(),
    }
}

/// The counts `t` after the instruction `instr`, which stands at `pc`, has
/// run once more. A `Ret(addr)` also counts for the loop body from `addr`
/// to behind `pc`.
pub open spec fn recorded(t: Tally, instr: BFIsa, pc: usize) -> Tally {
    match instr {
        BFIsa::Incr(_) => Tally { arith: tick(t.arith), ..t },
        BFIsa::Out => Tally { out: tick(t.out), ..t },
        BFIsa::In => Tally { inp: tick(t.inp), ..t },
        BFIsa::Mv(_) => Tally { mv: tick(t.mv), ..t },
        BFIsa::Jmp(_) => Tally { jmp: tick(t.jmp), ..t },
        BFIsa::Ret(addr) => Tally {
            ret: tick(t.ret),
            loops: t.loops.insert(
                (addr, (pc + 1) as usize),
                bumped(count_in(t.loops, (addr, (pc + 1) as usize)) as int, usize::MAX as int) as usize,
            ),
            ..t
        },
        BFIsa::LoopSetZero => Tally { loopsetz: tick(t.loopsetz), ..t },
        BFIsa::LoopMvData(_) => Tally { loopmvdata: tick(t.loopmvdata), ..t },
        BFIsa::LoopMvPtr(_) => Tally { loopmvptr: tick(t.loopmvptr), ..t },
    }
}

impl View for Profile {
    type V = Tally;

    open spec fn view(&self) -> Tally {
        Tally {
            arith: self.arith,
            mv: self.mv,
            inp: self.inp,
            out: self.out,
            jmp: self.jmp,
            ret: self.ret,
            loopsetz: self.loopsetz,
            loopmvptr: self.loopmvptr,
            loopmvdata: self.loopmvdata,
            loops: self.loops@,
        }
    }
}

/// A counter one higher.
fn ticked(c: u64) -> (r: u64)
    ensures
        r == tick(c),
{
    if c < u64::MAX {
        c + 1
    } else {
        c
    }
}

impl Default for Profile {
    fn default() -> (p: Profile)
        ensures
            p@ == no_tally(),
    {
        Profile {
            arith: 0,
            mv: 0,
            inp: 0,
            out: 0,
            jmp: 0,
            ret: 0,
            loopsetz: 0,
            loopmvptr: 0,
            loopmvdata: 0,
            loops: LoopTable::new(),
        }
    }
}

impl Profile {
    /// Counts one run of the instruction `instr`, which stands at `pc`.
    pub fn record(&mut self, instr: BFIsa, pc: usize)
        requires
            pc < usize::MAX,
        ensures
            final(self)@ == recorded(old(self)@, instr, pc),
    {
        match instr {
            BFIsa::Incr(_) => {
                self.arith = ticked(self.arith);
            },
            BFIsa::Out => {
                self.out = ticked(self.out);
            },
            BFIsa::In => {
                self.inp = ticked(self.inp);
            },
            BFIsa::Mv(_) => {
                self.mv = ticked(self.mv);
            },
            BFIsa::Jmp(_) => {
                self.jmp = ticked(self.jmp);
            },
            BFIsa::Ret(addr) => {
                self.ret = ticked(self.ret);
                self.loops.bump(addr, pc + 1);
            },
            BFIsa::LoopSetZero => {
                self.loopsetz = ticked(self.loopsetz);
            },
            BFIsa::LoopMvData(_) => {
                self.loopmvdata = ticked(self.loopmvdata);
            },
            BFIsa::LoopMvPtr(_) => {
                self.loopmvptr = ticked(self.loopmvptr);
            },
        }
    }
}

} // verus!
