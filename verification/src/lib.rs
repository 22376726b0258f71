//! Adaptive arithmetic compression library.
//!
//! The library provides an arithmetic coder over byte sequences together with
//! two interchangeable adaptive probability models: `AdaptiveLinearModel`, a
//! straightforward reference implementation, and `AdaptiveTreeModel`, a
//! Fenwick-tree-based implementation intended for general use.  A custom model
//! (adaptive or not) can be supplied by implementing the `model::Model` trait.

#![allow(unused_imports)]

use vstd::prelude::*;

pub mod bitio;
pub mod codec;
pub mod model;

use crate::bitio::{BitReader, BitWriter};
use crate::codec::Codec;
use crate::model::Model;

verus! {

/// Relies on std::io::Error, the error type of the standard byte streams.
/// It is declared only so that a value of it can be carried inside
/// `Error::IoError`; the library never inspects it.
#[verifier::external_type_specification]
#[verifier::external_body]
pub struct ExIoError(std::io::Error);

/// Possible errors that occur throughout this library.
#[derive(Debug)]
pub enum Error {
    /// The input stream has ended (unexpectedly).
    Eof,
    /// An invalid combination of data has occurred on the input that the
    /// library was unable to process.
    InvalidInput,
    /// An I/O error occurred.
    IoError(std::io::Error),
}

impl Error {
    /// Loose equality on errors: two `IoError` values compare equal
    /// whatever their payloads.
    pub open spec fn loose_eq(self, other: Error) -> bool {
        match (self, other) {
            (Error::Eof, Error::Eof) => true,
            (Error::InvalidInput, Error::InvalidInput) => true,
            (Error::IoError(_), Error::IoError(_)) => true,
            _ => false,
        }
    }
}

impl PartialEq for Error {
    fn eq(&self, other: &Error) -> bool {
        match (self, other) {
            (Error::Eof, Error::Eof) => true,
            (Error::InvalidInput, Error::InvalidInput) => true,
            (Error::IoError(_), Error::IoError(_)) => true,
            _ => false,
        }
    }
}

impl vstd::std_specs::cmp::PartialEqSpecImpl for Error {
    open spec fn obeys_eq_spec() -> bool {
        true
    }

    open spec fn eq_spec(&self, other: &Error) -> bool {
        self.loose_eq(*other)
    }
}

/// Compresses `input` into `output` using the given `model`.
/// Returns the number of bytes both in the decompressed and the compressed
/// stream.  Fails with `InvalidInput` exactly when the model is not byte
/// oriented, leaving the output untouched.  The input is bounded so that the
/// encoder's 64-bit pending-bit counter cannot overflow.
pub fn compress<M: Model>(input: &Vec<u8>, output: &mut Vec<u8>, model: M) -> (r: Result<
    (u64, u64),
    Error,
>)
    requires
        model.wf(),
        input@.len() <= 0x0010_0000_0000_0000,
    ensures
        model.params().symbol_bits == 8 <==> r is Ok,
        r matches Err(e) ==> e is InvalidInput && final(output)@ == old(output)@,
        r matches Ok(c) ==> (c.0 == input@.len() && final(output)@.len() == old(output)@.len()
            + c.1 && old(output)@.is_prefix_of(final(output)@)),
        r is Ok ==> ({
            let core = crate::codec::enc_bytes(
                model.params(),
                model.cf(),
                0,
                model.params().code_max,
                0,
                model.params().code_bits,
                input@,
            );
            crate::bitio::stream_bits(final(output)@.skip(old(output)@.len() as int)) == core
                + crate::bitio::zero_bits(((8 - core.len() as int % 8) % 8) as nat)
        }),
{
    let mut codec = Codec::new(model);
    let mut reader = BitReader::new(vstd::slice::slice_to_vec(input.as_slice()));
    let mut writer = BitWriter::new();
    let ghost whole = crate::codec::enc_bytes(
        model.params(),
        model.cf(),
        0,
        model.params().code_max,
        0,
        model.params().code_bits,
        input@,
    );
    proof {
        assert(input@.skip(0) =~= input@);
        assert(Seq::<bool>::empty() + whole =~= whole);
    }
    match codec.compress_bytes(&mut reader, &mut writer) {
        Ok(()) => {},
        Err(e) => {
            return Err(e);
        },
    }
    proof {
        reader.lemma_shape();
    }
    let bytes_in = reader.get_count();
    let bytes_out = writer.get_count();
    let mut encoded = writer.into_bytes();
    let ghost enc0 = encoded@;
    output.append(&mut encoded);
    proof {
        assert(old(output)@.is_prefix_of(output@)) by {
            assert(old(output)@ =~= output@.take(old(output)@.len() as int));
        }
        assert(output@.skip(old(output)@.len() as int) =~= enc0);
    }
    Ok((bytes_in, bytes_out))
}

/// Decompresses `input` into `output` using the given `model`.
/// Returns the number of bytes both in the compressed and the decompressed
/// stream.  Fails with `InvalidInput` exactly when the model is not byte
/// oriented and with `Eof` when the compressed stream ends early; on any
/// failure the output is untouched.
pub fn decompress<M: Model>(input: &Vec<u8>, output: &mut Vec<u8>, model: M) -> (r: Result<
    (u64, u64),
    Error,
>)
    requires
        model.wf(),
    ensures
        model.params().symbol_bits != 8 ==> (r matches Err(e) && e is InvalidInput),
        model.params().symbol_bits == 8 ==> (r is Ok || (r matches Err(e) && e is Eof)),
        model.params().symbol_bits == 8 ==> (r is Ok <==> crate::codec::dec_succeeds(
            model.params(),
            model.cf(),
            0,
            model.params().code_max,
            0,
            model.params().code_bits,
            crate::bitio::stream_bits(input@),
            0,
        )),
        r is Err ==> final(output)@ == old(output)@,
        r matches Ok(c) ==> (c.0 == (crate::codec::dec_stop_pos(
            model.params(),
            model.cf(),
            0,
            model.params().code_max,
            0,
            model.params().code_bits,
            crate::bitio::stream_bits(input@),
            0,
        ) + 7) / 8 && c.0 <= input@.len() && final(output)@.len() == old(output)@.len() + c.1
            && old(output)@.is_prefix_of(final(output)@)),
        r is Ok ==> final(output)@.skip(old(output)@.len() as int) == crate::codec::dec_expected(
            model.params(),
            model.cf(),
            0,
            model.params().code_max,
            0,
            model.params().code_bits,
            crate::bitio::stream_bits(input@),
            0,
        ),
{
    let mut codec = Codec::new(model);
    let mut reader = BitReader::new(vstd::slice::slice_to_vec(input.as_slice()));
    let mut writer = BitWriter::new();
    match codec.decompress_bytes(&mut reader, &mut writer) {
        Ok(()) => {},
        Err(e) => {
            return Err(e);
        },
    }
    proof {
        reader.lemma_shape();
        writer.lemma_shape();
        assert(Seq::<bool>::empty() + crate::bitio::stream_bits(
            crate::codec::dec_expected(
                model.params(),
                model.cf(),
                0,
                model.params().code_max,
                0,
                model.params().code_bits,
                crate::bitio::stream_bits(input@),
                0,
            ),
        ) =~= crate::bitio::stream_bits(
            crate::codec::dec_expected(
                model.params(),
                model.cf(),
                0,
                model.params().code_max,
                0,
                model.params().code_bits,
                crate::bitio::stream_bits(input@),
                0,
            ),
        ));
        assert(writer.written().take(8 * writer.bytes_out().len() as int) =~= writer.written());
        crate::bitio::lemma_stream_bits_injective(
            writer.bytes_out(),
            crate::codec::dec_expected(
                model.params(),
                model.cf(),
                0,
                model.params().code_max,
                0,
                model.params().code_bits,
                crate::bitio::stream_bits(input@),
                0,
            ),
        );
    }
    let bytes_in = reader.get_count();
    let bytes_out = writer.get_count();
    let mut decoded = writer.into_bytes();
    let ghost dec0 = decoded@;
    output.append(&mut decoded);
    proof {
        assert(old(output)@.is_prefix_of(output@)) by {
            assert(old(output)@ =~= output@.take(old(output)@.len() as int));
        }
        assert(output@.skip(old(output)@.len() as int) =~= dec0);
    }
    Ok((bytes_in, bytes_out))
}

} // verus!
