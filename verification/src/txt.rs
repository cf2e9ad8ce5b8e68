use vstd::prelude::*;
use vstd::slice::slice_subrange;
use crate::error::ParseError;
use crate::fields::{num_u8, spec_num};
use crate::scan::{char_at, spec_char, spec_take_until, take_until};

verus! {

/// A text transmission (TXT): the number of sentences of the message, the
/// number of this one, the text identifier and the text.
#[derive(Debug, Clone, Copy, PartialEq, Eq)]
pub struct TxtData<'a> {
    pub total: Option<u8>,
    pub sentence: Option<u8>,
    pub id: Option<u8>,
    pub text: &'a [u8],
}

pub struct SpecTxtData {
    pub total: Option<u8>,
    pub sentence: Option<u8>,
    pub id: Option<u8>,
    pub text: Seq<u8>,
}

impl<'a> View for TxtData<'a> {
    type V = SpecTxtData;

    open spec fn view(&self) -> SpecTxtData {
        SpecTxtData { total: self.total, sentence: self.sentence, id: self.id, text: self.text@ }
    }
}

pub open spec fn opt_u8(o: Option<nat>) -> Option<u8> {
    match o {
        Some(v) => Some(v as u8),
        None => None,
    }
}

/// The body of a TXT sentence up to the `*` of the checksum, read as a
/// complete input: three optional `u8` fields each followed by `,`, then the
/// text up to the first `*`, and `*`.
pub open spec fn spec_txt(s: Seq<u8>) -> Result<(int, SpecTxtData), ParseError> {
    let (p1, total) = spec_num(s, 0, 44, 0xff);
    match spec_char(s, p1, 44, false) {
        Err(e) => Err(e),
        Ok(p2) => {
            let (p3, sentence) = spec_num(s, p2, 44, 0xff);
            match spec_char(s, p3, 44, false) {
                Err(e) => Err(e),
                Ok(p4) => {
                    let (p5, id) = spec_num(s, p4, 44, 0xff);
                    match spec_char(s, p5, 44, false) {
                        Err(e) => Err(e),
                        Ok(p6) => match spec_take_until(s, p6, 42, false) {
                            Err(e) => Err(e),
                            Ok(p7) => match spec_char(s, p7, 42, false) {
                                Err(e) => Err(e),
                                Ok(p8) => Ok(
                                    (
                                        p8,
                                        SpecTxtData {
                                            total: opt_u8(total),
                                            sentence: opt_u8(sentence),
                                            id: opt_u8(id),
                                            text: s.subrange(p6, p7),
                                        },
                                    ),
                                ),
                            },
                        },
                    }
                },
            }
        },
    }
}

/// Parses the body of a TXT sentence and returns what follows its `*`
/// together with the record.
pub fn parse<'a>(inp: &'a [u8]) -> (r: Result<(&'a [u8], TxtData<'a>), ParseError>)
    ensures
        match spec_txt(inp@) {
            Ok((q, d)) => r matches Ok((rest, g)) && rest@ == inp@.skip(q) && g@ == d,
            Err(e) => r matches Err(e2) && e2 == e,
        },
{
    let s = inp;
    let (p1, total) = num_u8(s, 0, 44);
    let p2 = char_at(s, p1, 44, false)?;
    let (p3, sentence) = num_u8(s, p2, 44);
    let p4 = char_at(s, p3, 44, false)?;
    let (p5, id) = num_u8(s, p4, 44);
    let p6 = char_at(s, p5, 44, false)?;
    let p7 = take_until(s, p6, 42, false)?;
    let p8 = char_at(s, p7, 42, false)?;
    Ok(
        (
            slice_subrange(s, p8, s.len()),
            TxtData { total, sentence, id, text: slice_subrange(s, p6, p7) },
        ),
    )
}

} // verus!
