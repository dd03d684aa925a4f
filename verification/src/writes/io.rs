//! Unit-stream sinks: short writes of raw code units, in the style of the
//! host's byte-sink convention, at the 16- and 32-bit widths.
//!
//! A sink models what it has accepted so far as a sequence of unit values.
//! A short write accepts a prefix and reports its length; writing the rest
//! is the caller's loop, or `write16_all` / `write32_all`, which fail with
//! `WriteZero` once the sink accepts nothing more.

use vstd::prelude::*;
use crate::WriteError;
use crate::cstr::CStrView;
use crate::cstring::CStringBuf;
use crate::unit::unit_vals;

verus! {

/// True when no unit in the sequence is a terminator.
pub open spec fn zero_free(s: Seq<u32>) -> bool {
    forall|i: int| 0 <= i < s.len() ==> s[i] != 0
}

/// A sink of 16-bit code units.
pub trait Write16 {
    /// The unit values the sink has accepted so far, in order.
    spec fn sink16(&self) -> Seq<u32>;

    /// Whether the sink is in a writable state.
    spec fn sink16_inv(&self) -> bool;

    /// Writes a prefix of `buf` into the sink and reports how many units
    /// were accepted; zero-free units are appended to the sink's record.
    fn write16(&mut self, buf: &[u16]) -> (r: Result<usize, WriteError>)
        requires
            old(self).sink16_inv(),
        ensures
            final(self).sink16_inv(),
            match r {
                Ok(n) => n <= buf@.len() && (zero_free(unit_vals(buf@).take(n as int))
                    ==> final(self).sink16() == old(self).sink16() + unit_vals(buf@).take(
                    n as int,
                )),
                Err(_) => final(self).sink16() == old(self).sink16(),
            },
    ;

    /// Completes any buffered writing.
    fn flush16(&mut self) -> (r: Result<(), WriteError>)
        requires
            old(self).sink16_inv(),
        ensures
            final(self).sink16_inv(),
            final(self).sink16() == old(self).sink16(),
            r is Ok,
    ;

    /// Writes the whole of `buf`, or fails with `WriteZero` once the sink
    /// accepts nothing more.
    fn write16_all(&mut self, buf: &[u16]) -> (r: Result<(), WriteError>)
        requires
            old(self).sink16_inv(),
        ensures
            final(self).sink16_inv(),
            r is Ok && zero_free(unit_vals(buf@)) ==> final(self).sink16() == old(self).sink16()
                + unit_vals(buf@),
    ;
}

/// A sink of 32-bit code units.
pub trait Write32 {
    /// The unit values the sink has accepted so far, in order.
    spec fn sink32(&self) -> Seq<u32>;

    /// Whether the sink is in a writable state.
    spec fn sink32_inv(&self) -> bool;

    /// Writes a prefix of `buf` into the sink and reports how many units
    /// were accepted; zero-free units are appended to the sink's record.
    fn write32(&mut self, buf: &[u32]) -> (r: Result<usize, WriteError>)
        requires
            old(self).sink32_inv(),
        ensures
            final(self).sink32_inv(),
            match r {
                Ok(n) => n <= buf@.len() && (zero_free(unit_vals(buf@).take(n as int))
                    ==> final(self).sink32() == old(self).sink32() + unit_vals(buf@).take(
                    n as int,
                )),
                Err(_) => final(self).sink32() == old(self).sink32(),
            },
    ;

    /// Completes any buffered writing.
    fn flush32(&mut self) -> (r: Result<(), WriteError>)
        requires
            old(self).sink32_inv(),
        ensures
            final(self).sink32_inv(),
            final(self).sink32() == old(self).sink32(),
            r is Ok,
    ;

    /// Writes the whole of `buf`, or fails with `WriteZero` once the sink
    /// accepts nothing more.
    fn write32_all(&mut self, buf: &[u32]) -> (r: Result<(), WriteError>)
        requires
            old(self).sink32_inv(),
        ensures
            final(self).sink32_inv(),
            r is Ok && zero_free(unit_vals(buf@)) ==> final(self).sink32() == old(self).sink32()
                + unit_vals(buf@),
    ;
}

impl Write16 for CStrView<u16> {
    /// What the window's writes have produced so far: the backing before
    /// the window's offset.
    open spec fn sink16(&self) -> Seq<u32> {
        self.backing().take(self.offset())
    }

    open spec fn sink16_inv(&self) -> bool {
        self.wf()
    }

    fn write16(&mut self, buf: &[u16]) -> (r: Result<usize, WriteError>)
        ensures
            r matches Ok(n) && n == if buf@.len() <= old(self).full().len() - 1 {
                buf@.len() as int
            } else {
                old(self).full().len() - 1
            },
            final(self).sink16() == old(self).sink16() + unit_vals(buf@).take(
                if buf@.len() <= old(self).full().len() - 1 {
                    buf@.len() as int
                } else {
                    old(self).full().len() - 1
                },
            ),
    {
        let w = self.write_units(buf);
        proof {
            assert(self.backing().take(self.offset()) =~= old(self).backing().take(
                old(self).offset(),
            ) + unit_vals(buf@).take(w as int));
        }
        Ok(w)
    }

    fn flush16(&mut self) -> (r: Result<(), WriteError>) {
        Ok(())
    }

    fn write16_all(&mut self, buf: &[u16]) -> (r: Result<(), WriteError>)
        ensures
            r is Ok <==> buf@.len() <= old(self).full().len() - 1,
            r matches Err(e) ==> e == WriteError::WriteZero,
            final(self).sink16() == old(self).sink16() + unit_vals(buf@).take(
                if buf@.len() <= old(self).full().len() - 1 {
                    buf@.len() as int
                } else {
                    old(self).full().len() - 1
                },
            ),
    {
        let w = self.write_units(buf);
        proof {
            assert(self.backing().take(self.offset()) =~= old(self).backing().take(
                old(self).offset(),
            ) + unit_vals(buf@).take(w as int));
        }
        if w == buf.len() {
            proof {
                assert(unit_vals(buf@).take(w as int) =~= unit_vals(buf@));
            }
            Ok(())
        } else {
            Err(WriteError::WriteZero)
        }
    }
}

impl Write32 for CStrView<u32> {
    /// What the window's writes have produced so far: the backing before
    /// the window's offset.
    open spec fn sink32(&self) -> Seq<u32> {
        self.backing().take(self.offset())
    }

    open spec fn sink32_inv(&self) -> bool {
        self.wf()
    }

    fn write32(&mut self, buf: &[u32]) -> (r: Result<usize, WriteError>)
        ensures
            r matches Ok(n) && n == if buf@.len() <= old(self).full().len() - 1 {
                buf@.len() as int
            } else {
                old(self).full().len() - 1
            },
            final(self).sink32() == old(self).sink32() + unit_vals(buf@).take(
                if buf@.len() <= old(self).full().len() - 1 {
                    buf@.len() as int
                } else {
                    old(self).full().len() - 1
                },
            ),
    {
        let w = self.write_units(buf);
        proof {
            assert(self.backing().take(self.offset()) =~= old(self).backing().take(
                old(self).offset(),
            ) + unit_vals(buf@).take(w as int));
        }
        Ok(w)
    }

    fn flush32(&mut self) -> (r: Result<(), WriteError>) {
        Ok(())
    }

    fn write32_all(&mut self, buf: &[u32]) -> (r: Result<(), WriteError>)
        ensures
            r is Ok <==> buf@.len() <= old(self).full().len() - 1,
            r matches Err(e) ==> e == WriteError::WriteZero,
            final(self).sink32() == old(self).sink32() + unit_vals(buf@).take(
                if buf@.len() <= old(self).full().len() - 1 {
                    buf@.len() as int
                } else {
                    old(self).full().len() - 1
                },
            ),
    {
        let w = self.write_units(buf);
        proof {
            assert(self.backing().take(self.offset()) =~= old(self).backing().take(
                old(self).offset(),
            ) + unit_vals(buf@).take(w as int));
        }
        if w == buf.len() {
            proof {
                assert(unit_vals(buf@).take(w as int) =~= unit_vals(buf@));
            }
            Ok(())
        } else {
            Err(WriteError::WriteZero)
        }
    }
}

impl Write16 for CStringBuf<u16> {
    /// What the string's writes have produced so far: its logical content.
    open spec fn sink16(&self) -> Seq<u32> {
        self.content()
    }

    open spec fn sink16_inv(&self) -> bool {
        self.wf()
    }

    fn write16(&mut self, buf: &[u16]) -> (r: Result<usize, WriteError>)
        ensures
            r matches Ok(n) && n == buf@.len(),
            final(self).raw().len() >= old(self).raw().len(),
            final(self).raw() == if buf@.len() == 0 {
                old(self).raw()
            } else if unit_vals(buf@).last() == 0 {
                crate::cstring::grown(
                    old(self).content() + unit_vals(buf@),
                    old(self).raw().len() as int,
                )
            } else {
                crate::cstring::grown(
                    old(self).content() + unit_vals(buf@) + seq![0u32],
                    old(self).raw().len() as int,
                )
            },
    {
        let r = cstring_append(self, buf);
        proof {
            assert(unit_vals(buf@).take(buf@.len() as int) =~= unit_vals(buf@));
        }
        r
    }

    fn flush16(&mut self) -> (r: Result<(), WriteError>) {
        Ok(())
    }

    fn write16_all(&mut self, buf: &[u16]) -> (r: Result<(), WriteError>)
        ensures
            r is Ok,
            final(self).raw().len() >= old(self).raw().len(),
            final(self).raw() == if buf@.len() == 0 {
                old(self).raw()
            } else if unit_vals(buf@).last() == 0 {
                crate::cstring::grown(
                    old(self).content() + unit_vals(buf@),
                    old(self).raw().len() as int,
                )
            } else {
                crate::cstring::grown(
                    old(self).content() + unit_vals(buf@) + seq![0u32],
                    old(self).raw().len() as int,
                )
            },
    {
        let _ = cstring_append(self, buf);
        Ok(())
    }
}

impl Write32 for CStringBuf<u32> {
    /// What the string's writes have produced so far: its logical content.
    open spec fn sink32(&self) -> Seq<u32> {
        self.content()
    }

    open spec fn sink32_inv(&self) -> bool {
        self.wf()
    }

    fn write32(&mut self, buf: &[u32]) -> (r: Result<usize, WriteError>)
        ensures
            r matches Ok(n) && n == buf@.len(),
            final(self).raw().len() >= old(self).raw().len(),
            final(self).raw() == if buf@.len() == 0 {
                old(self).raw()
            } else if unit_vals(buf@).last() == 0 {
                crate::cstring::grown(
                    old(self).content() + unit_vals(buf@),
                    old(self).raw().len() as int,
                )
            } else {
                crate::cstring::grown(
                    old(self).content() + unit_vals(buf@) + seq![0u32],
                    old(self).raw().len() as int,
                )
            },
    {
        let r = cstring_append(self, buf);
        proof {
            assert(unit_vals(buf@).take(buf@.len() as int) =~= unit_vals(buf@));
        }
        r
    }

    fn flush32(&mut self) -> (r: Result<(), WriteError>) {
        Ok(())
    }

    fn write32_all(&mut self, buf: &[u32]) -> (r: Result<(), WriteError>)
        ensures
            r is Ok,
            final(self).raw().len() >= old(self).raw().len(),
            final(self).raw() == if buf@.len() == 0 {
                old(self).raw()
            } else if unit_vals(buf@).last() == 0 {
                crate::cstring::grown(
                    old(self).content() + unit_vals(buf@),
                    old(self).raw().len() as int,
                )
            } else {
                crate::cstring::grown(
                    old(self).content() + unit_vals(buf@) + seq![0u32],
                    old(self).raw().len() as int,
                )
            },
    {
        let _ = cstring_append(self, buf);
        Ok(())
    }
}

/// Appends raw units to an owned string; when they are zero-free the
/// logical content is extended by exactly those units.
fn cstring_append<U: crate::unit::CodeUnit>(s: &mut CStringBuf<U>, buf: &[U]) -> (r: Result<
    usize,
    WriteError,
>)
    requires
        old(s).wf(),
    ensures
        final(s).wf(),
        r matches Ok(n) && n == buf@.len(),
        zero_free(unit_vals(buf@)) ==> final(s).content() == old(s).content() + unit_vals(buf@),
        final(s).raw().len() >= old(s).raw().len(),
        final(s).raw() == if buf@.len() == 0 {
            old(s).raw()
        } else if unit_vals(buf@).last() == 0 {
            crate::cstring::grown(old(s).content() + unit_vals(buf@), old(s).raw().len() as int)
        } else {
            crate::cstring::grown(
                old(s).content() + unit_vals(buf@) + seq![0u32],
                old(s).raw().len() as int,
            )
        },
{
    proof {
        s.lemma_wf_len();
    }
    let n = s.write_units(buf);
    proof {
        if zero_free(unit_vals(buf@)) {
            let oc = old(s).content();
            let bv = unit_vals(buf@);
            if bv.len() == 0 {
                assert(s.raw() == old(s).raw());
                assert(oc + bv =~= oc);
            } else {
                assert(bv.last() != 0);
                crate::cstring::lemma_content_after_append(*old(s), *s, bv);
            }
        }
    }
    Ok(n)
}

} // verus!
