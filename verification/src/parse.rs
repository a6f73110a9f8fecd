//! The folding parser: one pass over the source bytes that merges runs of
//! cell and pointer arithmetic, pairs the brackets, and replaces three loop
//! idioms by single instructions when their closing bracket is read.

use vstd::prelude::*;
use crate::isa::BFIsa;
use crate::machine::cell_add;
use crate::pairing::{
    balanced, folding_ok, lemma_feed_keeps, lemma_parse_folds_and_pairs, lemma_scan_keeps,
    lemma_scan_stays_failed,
};
use crate::unparse::{canonical, lemma_scan_replayable};

verus! {

/// The byte `+`.
pub const PLUS: u8 = 0x2b;

/// The byte `-`.
pub const MINUS: u8 = 0x2d;

/// The byte `>`.
pub const RIGHT: u8 = 0x3e;

/// The byte `<`.
pub const LEFT: u8 = 0x3c;

/// The byte `.`.
pub const DOT: u8 = 0x2e;

/// The byte `,`.
pub const COMMA: u8 = 0x2c;

/// The byte `[`.
pub const OPEN: u8 = 0x5b;

/// The byte `]`.
pub const CLOSE: u8 = 0x5d;

/// A bracket without a partner: which bracket, and the source position of it.
#[derive(Debug)]
pub struct NestingErr(pub &'static str, pub usize);

/// An open bracket: where its `Jmp` stands in the code, and where the `[`
/// stands in the source.
pub type Frame = (usize, usize);

/// What the parser holds between two source bytes.
pub struct Folding {
    /// The instructions emitted so far.
    pub code: Seq<BFIsa>,
    /// The brackets that are still open, innermost last.
    pub open: Seq<Frame>,
}

/// `code` with `delta` added to the cell: merged into a trailing `Incr`, or
/// appended as a new one.
pub open spec fn bump_cell(code: Seq<BFIsa>, delta: u8) -> Seq<BFIsa> {
    if code.len() > 0 && code.last() is Incr {
        code.drop_last().push(BFIsa::Incr(cell_add(code.last()->Incr_0, delta)))
    } else {
        code.push(BFIsa::Incr(delta))
    }
}

/// `code` with `delta` added to the pointer: merged into a trailing `Mv`, or
/// appended as a new one.
pub open spec fn bump_ptr(code: Seq<BFIsa>, delta: isize) -> Seq<BFIsa> {
    if code.len() > 0 && code.last() is Mv {
        code.drop_last().push(BFIsa::Mv(code.last()->Mv_0.wrapping_add(delta)))
    } else {
        code.push(BFIsa::Mv(delta))
    }
}

/// The tail of `code` is `[`, then an odd change of the cell.
pub open spec fn ends_in_clear(code: Seq<BFIsa>) -> bool {
    let n = code.len() as int;
    &&& n >= 2
    &&& code[n - 2] is Jmp
    &&& code[n - 1] is Incr
    &&& code[n - 1]->Incr_0 % 2 == 1
}

/// The tail of `code` is `[`, `-`, a move, `+`, and the opposite move.
pub open spec fn ends_in_transfer(code: Seq<BFIsa>) -> bool {
    let n = code.len() as int;
    &&& n >= 5
    &&& code[n - 5] is Jmp
    &&& code[n - 4] == BFIsa::Incr(255)
    &&& code[n - 3] is Mv
    &&& code[n - 2] == BFIsa::Incr(1)
    &&& code[n - 1] is Mv
    &&& code[n - 3]->Mv_0 as int == -(code[n - 1]->Mv_0 as int)
}

/// The tail of `code` is `[` and one move.
pub open spec fn ends_in_scan(code: Seq<BFIsa>) -> bool {
    let n = code.len() as int;
    &&& n >= 2
    &&& code[n - 2] is Jmp
    &&& code[n - 1] is Mv
}

/// What a `]` appends to `code`, whose innermost open `Jmp` stands at `addr`
/// and already holds its target: one of the three loop instructions in place
/// of a recognised tail, tried in this order, and `Ret(addr)` otherwise.
pub open spec fn close_loop(code: Seq<BFIsa>, addr: usize) -> Seq<BFIsa> {
    let n = code.len() as int;
    if ends_in_clear(code) {
        code.take(n - 2).push(BFIsa::LoopSetZero)
    } else if ends_in_transfer(code) {
        code.take(n - 5).push(BFIsa::LoopMvData(code[n - 3]->Mv_0))
    } else if ends_in_scan(code) {
        code.take(n - 2).push(BFIsa::LoopMvPtr(code[n - 1]->Mv_0))
    } else {
        code.push(BFIsa::Ret(addr))
    }
}

/// The parser's state after the byte `byte`, read at source position `pos`.
pub open spec fn feed(st: Folding, pos: usize, byte: u8) -> Result<Folding, NestingErr> {
    if byte == PLUS {
        Ok(Folding { code: bump_cell(st.code, 1), open: st.open })
    } else if byte == MINUS {
        Ok(Folding { code: bump_cell(st.code, 255), open: st.open })
    } else if byte == RIGHT {
        Ok(Folding { code: bump_ptr(st.code, 1), open: st.open })
    } else if byte == LEFT {
        Ok(Folding { code: bump_ptr(st.code, -1isize), open: st.open })
    } else if byte == DOT {
        Ok(Folding { code: st.code.push(BFIsa::Out), open: st.open })
    } else if byte == COMMA {
        Ok(Folding { code: st.code.push(BFIsa::In), open: st.open })
    } else if byte == OPEN {
        Ok(
            Folding {
                code: st.code.push(BFIsa::Jmp(0)),
                open: st.open.push((st.code.len() as usize, pos)),
            },
        )
    } else if byte == CLOSE {
        if st.open.len() == 0 {
            Err(NestingErr("] @", pos))
        } else {
            let addr = st.open.last().0;
            let patched = st.code.update(addr as int, BFIsa::Jmp(st.code.len() as usize));
            Ok(Folding { code: close_loop(patched, addr), open: st.open.drop_last() })
        }
    } else {
        Ok(st)
    }
}

/// The parser's state after the first `n` bytes of `src`.
pub open spec fn scan(src: Seq<u8>, n: nat) -> Result<Folding, NestingErr>
    decreases n,
{
    if n == 0 {
        Ok(Folding { code: Seq::empty(), open: Seq::empty() })
    } else {
        match scan(src, (n - 1) as nat) {
            Err(e) => Err(e),
            Ok(st) => feed(st, (n - 1) as usize, src[n - 1]),
        }
    }
}

/// The program that `src` stands for, or the bracket that has no partner:
/// the first `]` that closes nothing, else the innermost `[` left open.
pub open spec fn parse_spec(src: Seq<u8>) -> Result<Seq<BFIsa>, NestingErr> {
    match scan(src, src.len()) {
        Err(e) => Err(e),
        Ok(st) => if st.open.len() > 0 {
            Err(NestingErr("[ @", st.open.last().1))
        } else {
            Ok(st.code)
        },
    }
}

/// What `parse` returns, as a value of the model.
pub open spec fn parsed(r: Result<Vec<BFIsa>, NestingErr>) -> Result<Seq<BFIsa>, NestingErr> {
    match r {
        Ok(code) => Ok(code@),
        Err(e) => Err(e),
    }
}

/// Adds `delta` to the cell, merging it into a trailing `Incr`.
fn push_cell(code: &mut Vec<BFIsa>, delta: u8)
    ensures
        final(code)@ == bump_cell(old(code)@, delta),
{
    let n = code.len();
    if n > 0 {
        if let BFIsa::Incr(r) = code[n - 1] {
            code[n - 1] = BFIsa::Incr(r.wrapping_add(delta));
            assert(code@ =~= bump_cell(old(code)@, delta));
            return ;
        }
    }
    code.push(BFIsa::Incr(delta));
}

/// Adds `delta` to the pointer, merging it into a trailing `Mv`.
fn push_ptr(code: &mut Vec<BFIsa>, delta: isize)
    ensures
        final(code)@ == bump_ptr(old(code)@, delta),
{
    let n = code.len();
    if n > 0 {
        if let BFIsa::Mv(d) = code[n - 1] {
            code[n - 1] = BFIsa::Mv(d.wrapping_add(delta));
            assert(code@ =~= bump_ptr(old(code)@, delta));
            return ;
        }
    }
    code.push(BFIsa::Mv(delta));
}

/// Reads the tail of `code` at a `]` and appends what the bracket becomes.
fn push_close(code: &mut Vec<BFIsa>, addr: usize)
    ensures
        final(code)@ == close_loop(old(code)@, addr),
{
    let n = code.len();
    if n >= 2 {
        if let BFIsa::Jmp(_) = code[n - 2] {
            if let BFIsa::Incr(k) = code[n - 1] {
                if k % 2 == 1 {
                    code.truncate(n - 2);
                    code.push(BFIsa::LoopSetZero);
                    return ;
                }
            }
        }
    }
    if n >= 5 {
        if let (BFIsa::Jmp(_), BFIsa::Incr(255), BFIsa::Mv(d1), BFIsa::Incr(1), BFIsa::Mv(d2)) = (
            code[n - 5],
            code[n - 4],
            code[n - 3],
            code[n - 2],
            code[n - 1],
        ) {
            if d2 != isize::MIN && d1 == -d2 {
                code.truncate(n - 5);
                code.push(BFIsa::LoopMvData(d1));
                return ;
            }
        }
    }
    if n >= 2 {
        if let (BFIsa::Jmp(_), BFIsa::Mv(d)) = (code[n - 2], code[n - 1]) {
            code.truncate(n - 2);
            code.push(BFIsa::LoopMvPtr(d));
            return ;
        }
    }
    code.push(BFIsa::Ret(addr));
}

/// Folds `src` into a program. Bytes other than the eight commands are
/// skipped. Fails at the first `]` that closes nothing, and else on the
/// innermost `[` that is still open when the source ends.
pub fn parse(src: &[u8]) -> (r: Result<Vec<BFIsa>, NestingErr>)
    ensures
        parsed(r) == parse_spec(src@),
        r is Ok ==> canonical(r->Ok_0@) && balanced(r->Ok_0@),
{
    let mut code: Vec<BFIsa> = Vec::new();
    let mut nest: Vec<Frame> = Vec::new();
    let mut pos: usize = 0;
    while pos < src.len()
        invariant
            pos <= src.len(),
            scan(src@, pos as nat) == Ok::<Folding, NestingErr>(Folding { code: code@, open: nest@ }),
            code.len() <= pos,
            folding_ok(Folding { code: code@, open: nest@ }),
        decreases src.len() - pos,
    {
        let byte = src[pos];
        let ghost before = Folding { code: code@, open: nest@ };
        proof {
            assert(scan(src@, (pos + 1) as nat) == feed(before, pos, byte));
            if feed(before, pos, byte) is Ok {
                lemma_feed_keeps(before, pos, byte);
            } else {
                lemma_scan_stays_failed(src@, (pos + 1) as nat, src@.len());
            }
        }
        if byte == PLUS {
            push_cell(&mut code, 1);
        } else if byte == MINUS {
            push_cell(&mut code, 255);
        } else if byte == RIGHT {
            push_ptr(&mut code, 1);
        } else if byte == LEFT {
            push_ptr(&mut code, -1);
        } else if byte == DOT {
            code.push(BFIsa::Out);
        } else if byte == COMMA {
            code.push(BFIsa::In);
        } else if byte == OPEN {
            nest.push((code.len(), pos));
            code.push(BFIsa::Jmp(0));
        } else if byte == CLOSE {
            match nest.pop() {
                None => {
                    return Err(NestingErr("] @", pos));
                },
                Some((addr, _)) => {
                    assert(before.open[before.open.len() - 1].0 < code.len());
                    let target = code.len();
                    code[addr] = BFIsa::Jmp(target);
                    push_close(&mut code, addr);
                },
            }
        }
        pos += 1;
    }
    match nest.pop() {
        Some((_, at)) => Err(NestingErr("[ @", at)),
        None => {
            proof {
                lemma_parse_folds_and_pairs(src@);
                lemma_scan_keeps(src@, src@.len());
                lemma_scan_replayable(src@, src@.len());
            }
            Ok(code)
        },
    }
}

} // verus!
