//! String-valued sinks: all-or-nothing writes of whole zero-terminated
//! strings, in the style of the host's formatted-text convention, at the
//! 16- and 32-bit widths.

use vstd::prelude::*;
use crate::WriteError;
use crate::cstr::CStrView;
use crate::cstring::CStringBuf;
use super::io;

verus! {

/// A sink that accepts whole 16-bit strings.
pub trait Write16: io::Write16 {
    /// Writes a whole string's content, or fails leaving the sink's record
    /// unchanged.
    fn write16_str(&mut self, buf: &CStrView<u16>) -> (r: Result<(), WriteError>)
        requires
            old(self).sink16_inv(),
            buf.wf(),
        ensures
            final(self).sink16_inv(),
            match r {
                Ok(()) => final(self).sink16() == old(self).sink16() + buf.content(),
                Err(_) => final(self).sink16() == old(self).sink16(),
            },
    ;

    /// Writes one unit as a one-character string; a zero unit writes the
    /// empty string. Fails leaving the sink's record unchanged.
    fn write16_char(&mut self, c: u16) -> (r: Result<(), WriteError>)
        requires
            old(self).sink16_inv(),
        ensures
            final(self).sink16_inv(),
            match r {
                Ok(()) => final(self).sink16() == old(self).sink16() + seq![c as u32].take(
                    if c == 0 {
                        0
                    } else {
                        1
                    },
                ),
                Err(_) => final(self).sink16() == old(self).sink16(),
            },
    ;
}

/// A sink that accepts whole 32-bit strings.
pub trait Write32: io::Write32 {
    /// Writes a whole string's content, or fails leaving the sink's record
    /// unchanged.
    fn write32_str(&mut self, buf: &CStrView<u32>) -> (r: Result<(), WriteError>)
        requires
            old(self).sink32_inv(),
            buf.wf(),
        ensures
            final(self).sink32_inv(),
            match r {
                Ok(()) => final(self).sink32() == old(self).sink32() + buf.content(),
                Err(_) => final(self).sink32() == old(self).sink32(),
            },
    ;

    /// Writes one unit as a one-character string; a zero unit writes the
    /// empty string. Fails leaving the sink's record unchanged.
    fn write32_char(&mut self, c: u32) -> (r: Result<(), WriteError>)
        requires
            old(self).sink32_inv(),
        ensures
            final(self).sink32_inv(),
            match r {
                Ok(()) => final(self).sink32() == old(self).sink32() + seq![c].take(
                    if c == 0 {
                        0
                    } else {
                        1
                    },
                ),
                Err(_) => final(self).sink32() == old(self).sink32(),
            },
    ;
}

impl Write16 for CStrView<u16> {
    fn write16_str(&mut self, buf: &CStrView<u16>) -> (r: Result<(), WriteError>)
        ensures
            r is Ok <==> old(self).full().len() >= buf.spec_len() + 1,
            r matches Err(e) ==> e == WriteError::WriteZero && *final(self) == *old(self),
            r is Ok ==> {
                &&& final(self).offset() == old(self).offset() + buf.spec_len()
                &&& final(self).backing() == old(self).backing().take(old(self).offset())
                    + buf.content() + seq![0u32] + old(self).backing().skip(
                    old(self).offset() + buf.spec_len() + 1,
                )
                &&& final(self).full().len() >= 1 && final(self).full()[0] == 0
            },
    {
        proof {
            buf.lemma_wf_len();
            old(self).lemma_wf_len();
        }
        let r = self.write_view(buf);
        proof {
            if r is Ok {
                assert(self.backing().take(self.offset()) =~= old(self).backing().take(
                    old(self).offset(),
                ) + buf.content());
                // The copied terminator stands at the new window front,
                // overwritable by the next write.
                assert(self.backing()[self.offset()] == 0);
                assert(self.full()[0] == self.backing()[self.offset()]);
            }
        }
        r
    }

    fn write16_char(&mut self, c: u16) -> (r: Result<(), WriteError>)
        ensures
            r is Ok <==> old(self).full().len() >= (if c == 0 {
                1int
            } else {
                2int
            }),
            r matches Err(e) ==> e == WriteError::WriteZero && *final(self) == *old(self),
            r is Ok ==> {
                &&& final(self).offset() == old(self).offset() + (if c == 0 {
                    0int
                } else {
                    1int
                })
                &&& final(self).full().len() >= 1 && final(self).full()[0] == 0
            },
    {
        let r = self.write_unit_char(c);
        proof {
            if r is Ok {
                assert(self.backing().take(self.offset()) =~= old(self).backing().take(
                    old(self).offset(),
                ) + seq![c as u32].take(
                    if c == 0 {
                        0int
                    } else {
                        1int
                    },
                ));
                assert(self.backing()[self.offset()] == 0);
                assert(self.full()[0] == self.backing()[self.offset()]);
            }
        }
        r
    }
}

impl Write32 for CStrView<u32> {
    fn write32_str(&mut self, buf: &CStrView<u32>) -> (r: Result<(), WriteError>)
        ensures
            r is Ok <==> old(self).full().len() >= buf.spec_len() + 1,
            r matches Err(e) ==> e == WriteError::WriteZero && *final(self) == *old(self),
            r is Ok ==> {
                &&& final(self).offset() == old(self).offset() + buf.spec_len()
                &&& final(self).backing() == old(self).backing().take(old(self).offset())
                    + buf.content() + seq![0u32] + old(self).backing().skip(
                    old(self).offset() + buf.spec_len() + 1,
                )
                &&& final(self).full().len() >= 1 && final(self).full()[0] == 0
            },
    {
        proof {
            buf.lemma_wf_len();
            old(self).lemma_wf_len();
        }
        let r = self.write_view(buf);
        proof {
            if r is Ok {
                assert(self.backing().take(self.offset()) =~= old(self).backing().take(
                    old(self).offset(),
                ) + buf.content());
                // The copied terminator stands at the new window front,
                // overwritable by the next write.
                assert(self.backing()[self.offset()] == 0);
                assert(self.full()[0] == self.backing()[self.offset()]);
            }
        }
        r
    }

    fn write32_char(&mut self, c: u32) -> (r: Result<(), WriteError>)
        ensures
            r is Ok <==> old(self).full().len() >= (if c == 0 {
                1int
            } else {
                2int
            }),
            r matches Err(e) ==> e == WriteError::WriteZero && *final(self) == *old(self),
            r is Ok ==> {
                &&& final(self).offset() == old(self).offset() + (if c == 0 {
                    0int
                } else {
                    1int
                })
                &&& final(self).full().len() >= 1 && final(self).full()[0] == 0
            },
    {
        let r = self.write_unit_char(c);
        proof {
            if r is Ok {
                assert(self.backing().take(self.offset()) =~= old(self).backing().take(
                    old(self).offset(),
                ) + seq![c].take(
                    if c == 0 {
                        0int
                    } else {
                        1int
                    },
                ));
                assert(self.backing()[self.offset()] == 0);
                assert(self.full()[0] == self.backing()[self.offset()]);
            }
        }
        r
    }
}

impl Write16 for CStringBuf<u16> {
    fn write16_str(&mut self, buf: &CStrView<u16>) -> (r: Result<(), WriteError>)
        ensures
            r is Ok,
            final(self).raw().len() >= old(self).raw().len(),
            final(self).raw() == crate::cstring::grown(
                old(self).content() + buf.content() + seq![0u32],
                old(self).raw().len() as int,
            ),
    {
        proof {
            buf.lemma_wf_len();
        }
        let r = self.write_view(buf);
        proof {
            crate::cstring::lemma_content_after_append(*old(self), *self, buf.content());
        }
        r
    }

    fn write16_char(&mut self, c: u16) -> (r: Result<(), WriteError>)
        ensures
            r is Ok,
            final(self).raw().len() >= old(self).raw().len(),
            final(self).raw() == crate::cstring::grown(
                old(self).content() + seq![c as u32].take(
                    if c == 0 {
                        0int
                    } else {
                        1int
                    },
                ) + seq![0u32],
                old(self).raw().len() as int,
            ),
    {
        let r = self.write_unit_char(c);
        proof {
            crate::cstring::lemma_content_after_append(
                *old(self),
                *self,
                seq![c as u32].take(
                    if c == 0 {
                        0int
                    } else {
                        1int
                    },
                ),
            );
        }
        r
    }
}

impl Write32 for CStringBuf<u32> {
    fn write32_str(&mut self, buf: &CStrView<u32>) -> (r: Result<(), WriteError>)
        ensures
            r is Ok,
            final(self).raw().len() >= old(self).raw().len(),
            final(self).raw() == crate::cstring::grown(
                old(self).content() + buf.content() + seq![0u32],
                old(self).raw().len() as int,
            ),
    {
        proof {
            buf.lemma_wf_len();
        }
        let r = self.write_view(buf);
        proof {
            crate::cstring::lemma_content_after_append(*old(self), *self, buf.content());
        }
        r
    }

    fn write32_char(&mut self, c: u32) -> (r: Result<(), WriteError>)
        ensures
            r is Ok,
            final(self).raw().len() >= old(self).raw().len(),
            final(self).raw() == crate::cstring::grown(
                old(self).content() + seq![c].take(
                    if c == 0 {
                        0int
                    } else {
                        1int
                    },
                ) + seq![0u32],
                old(self).raw().len() as int,
            ),
    {
        let r = self.write_unit_char(c);
        proof {
            crate::cstring::lemma_content_after_append(
                *old(self),
                *self,
                seq![c].take(
                    if c == 0 {
                        0int
                    } else {
                        1int
                    },
                ),
            );
        }
        r
    }
}

} // verus!
