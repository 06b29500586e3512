//! The human-readable message of an [`Error`], rendered as text.
//!
//! The text is assembled character by character in verified code; only the
//! final conversion of the characters into a `String` is a call into std.
use vstd::prelude::*;

use crate::durability::SyncMode;
use crate::error::{Error, ErrorKind};

verus! {

/// The decimal digit character of `d` (below ten).
pub open spec fn spec_digit(d: nat) -> char {
    if d == 0 {
        '0'
    } else if d == 1 {
        '1'
    } else if d == 2 {
        '2'
    } else if d == 3 {
        '3'
    } else if d == 4 {
        '4'
    } else if d == 5 {
        '5'
    } else if d == 6 {
        '6'
    } else if d == 7 {
        '7'
    } else if d == 8 {
        '8'
    } else {
        '9'
    }
}

/// The decimal representation of `n`, without leading zeros.
pub open spec fn spec_decimal(n: nat) -> Seq<char>
    decreases n,
{
    if n < 10 {
        seq![spec_digit(n)]
    } else {
        spec_decimal(n / 10).push(spec_digit(n % 10))
    }
}

/// `Some(n)` or `None`, as `Debug` renders an optional number.
pub open spec fn spec_option_text(v: Option<u64>) -> Seq<char> {
    match v {
        Some(n) => "Some("@ + spec_decimal(n as nat) + ")"@,
        None => "None"@,
    }
}

/// The name of a checkpoint mode, as `Debug` renders it.
pub open spec fn spec_mode_text(mode: SyncMode) -> Seq<char> {
    match mode {
        SyncMode::Data => "Data"@,
        SyncMode::All => "All"@,
    }
}

/// One `name=value` context field, led by ` (` when it is the first one
/// shown and by `, ` otherwise.
pub open spec fn spec_context_field(first: bool, name: Seq<char>, value: usize) -> Seq<char> {
    (if first {
        " ("@
    } else {
        ", "@
    }) + name + "="@ + spec_decimal(value as nat)
}

/// The context of an invalid frame: the fields that are present, in order,
/// in parentheses; nothing when none is.
pub open spec fn spec_frame_context(
    declared_len: Option<usize>,
    buffer_len: Option<usize>,
    limit: Option<usize>,
) -> Seq<char> {
    let a = match declared_len {
        Some(v) => spec_context_field(true, "declared_len"@, v),
        None => Seq::empty(),
    };
    let b = match buffer_len {
        Some(v) => spec_context_field(declared_len is None, "buffer_len"@, v),
        None => Seq::empty(),
    };
    let c = match limit {
        Some(v) => spec_context_field(declared_len is None && buffer_len is None, "limit"@, v),
        None => Seq::empty(),
    };
    let close = if declared_len is Some || buffer_len is Some || limit is Some {
        ")"@
    } else {
        Seq::empty()
    };
    a + b + c + close
}

/// The message of an error of kind `kind`.
pub open spec fn spec_message(kind: ErrorKind) -> Seq<char> {
    match kind {
        ErrorKind::Io(e) => "I/O error: "@ + e.message@,
        ErrorKind::ChecksumMismatch { expected, calculated } => "Checksum mismatch: expected "@
            + spec_decimal(expected as nat) + ", got "@ + spec_decimal(calculated as nat),
        ErrorKind::InvalidFrame { message, declared_len, buffer_len, limit } => "Invalid frame: "@
            + message@ + spec_frame_context(declared_len, buffer_len, limit),
        ErrorKind::Flatbuffers { reason } => "FlatBuffers error: "@ + reason@,
        ErrorKind::ValidationFailed { validator, reason } => "Validation failed (validator: "@
            + validator@ + "): "@ + reason@,
        ErrorKind::UnexpectedEof => "Unexpected end of file while reading stream"@,
        ErrorKind::Poisoned => "stream is poisoned by a failed partial frame; consume, recover, and reconstruct it"@,
        ErrorKind::DurabilityFailed { mode, attempted_watermark, previous_watermark, source, .. } =>
            spec_mode_text(mode) + " durability checkpoint through offset "@ + spec_decimal(
            attempted_watermark as nat,
        ) + " failed (previous durable watermark: "@ + spec_option_text(previous_watermark) + "): "@
            + source.message@,
    }
}

/// Collects characters into a `String` (std's `FromIterator<&char>`), which
/// holds exactly those characters in order.
#[verifier::external_body]
pub(crate) fn string_from_chars(chars: &[char]) -> (r: String)
    ensures
        r@ == chars@,
{
    String::from_iter(chars)
}

/// Appends the characters of `s`.
pub(crate) fn push_str(out: &mut Vec<char>, s: &str)
    ensures
        final(out)@ == old(out)@ + s@,
{
    let n = s.unicode_len();
    let mut i: usize = 0;
    while i < n
        invariant
            i <= n,
            n == s@.len(),
            out@ == old(out)@ + s@.take(i as int),
        decreases n - i,
    {
        out.push(s.get_char(i));
        proof {
            assert(s@.take(i as int).push(s@[i as int]) =~= s@.take(i + 1));
        }
        i = i + 1;
    }
    proof {
        assert(s@.take(n as int) =~= s@);
    }
}

/// The decimal digit character of `d`.
fn digit(d: u64) -> (c: char)
    requires
        d < 10,
    ensures
        c == spec_digit(d as nat),
{
    if d == 0 {
        '0'
    } else if d == 1 {
        '1'
    } else if d == 2 {
        '2'
    } else if d == 3 {
        '3'
    } else if d == 4 {
        '4'
    } else if d == 5 {
        '5'
    } else if d == 6 {
        '6'
    } else if d == 7 {
        '7'
    } else if d == 8 {
        '8'
    } else {
        '9'
    }
}

/// Appends the decimal representation of `n`.
pub(crate) fn push_decimal(out: &mut Vec<char>, n: u64)
    ensures
        final(out)@ == old(out)@ + spec_decimal(n as nat),
    decreases n,
{
    if n >= 10 {
        push_decimal(out, n / 10);
    }
    out.push(digit(n % 10));
    proof {
        if n >= 10 {
            assert(spec_decimal(n as nat) == spec_decimal((n / 10) as nat).push(spec_digit((n % 10) as nat)));
        }
        assert(old(out)@ + spec_decimal(n as nat) =~= if n >= 10 {
            (old(out)@ + spec_decimal((n / 10) as nat)).push(spec_digit((n % 10) as nat))
        } else {
            old(out)@.push(spec_digit(n as nat))
        });
    }
}

/// Appends `Some(n)` or `None`.
fn push_option(out: &mut Vec<char>, v: Option<u64>)
    ensures
        final(out)@ == old(out)@ + spec_option_text(v),
{
    match v {
        Some(n) => {
            push_str(out, "Some(");
            push_decimal(out, n);
            push_str(out, ")");
            proof {
                assert(old(out)@ + spec_option_text(v) =~= old(out)@ + "Some("@ + spec_decimal(n as nat)
                    + ")"@);
            }
        },
        None => {
            push_str(out, "None");
        },
    }
}

/// Appends the name of a checkpoint mode.
fn push_mode(out: &mut Vec<char>, mode: SyncMode)
    ensures
        final(out)@ == old(out)@ + spec_mode_text(mode),
{
    match mode {
        SyncMode::Data => push_str(out, "Data"),
        SyncMode::All => push_str(out, "All"),
    }
}

/// Appends one context field if it is present; returns whether any field
/// has been shown so far.
fn push_context_field(out: &mut Vec<char>, shown: bool, name: &str, value: Option<usize>) -> (r: bool)
    ensures
        r == (shown || value is Some),
        final(out)@ == old(out)@ + match value {
            Some(v) => spec_context_field(!shown, name@, v),
            None => Seq::empty(),
        },
{
    match value {
        Some(v) => {
            if shown {
                push_str(out, ", ");
            } else {
                push_str(out, " (");
            }
            push_str(out, name);
            push_str(out, "=");
            push_decimal(out, v as u64);
            proof {
                assert(old(out)@ + spec_context_field(!shown, name@, v) =~= old(out)@ + (if !shown {
                    " ("@
                } else {
                    ", "@
                }) + name@ + "="@ + spec_decimal(v as nat));
            }
            true
        },
        None => {
            proof {
                assert(old(out)@ + Seq::<char>::empty() =~= old(out)@);
            }
            shown
        },
    }
}

/// Appends the context of an invalid frame.
fn push_frame_context(
    out: &mut Vec<char>,
    declared_len: Option<usize>,
    buffer_len: Option<usize>,
    limit: Option<usize>,
)
    ensures
        final(out)@ == old(out)@ + spec_frame_context(declared_len, buffer_len, limit),
{
    let ghost start = out@;
    let shown = push_context_field(out, false, "declared_len", declared_len);
    let ghost after_a = out@;
    let shown = push_context_field(out, shown, "buffer_len", buffer_len);
    let ghost after_b = out@;
    let shown = push_context_field(out, shown, "limit", limit);
    let ghost after_c = out@;
    if shown {
        push_str(out, ")");
    }
    proof {
        assert(out@ =~= start + spec_frame_context(declared_len, buffer_len, limit));
    }
}

impl Error {
    /// The error's human-readable message.
    pub fn message(&self) -> (r: String)
        ensures
            r@ == spec_message(self.spec_kind()),
    {
        let mut out: Vec<char> = Vec::new();
        match self.kind() {
            ErrorKind::Io(e) => {
                push_str(&mut out, "I/O error: ");
                push_str(&mut out, e.message.as_str());
            },
            ErrorKind::ChecksumMismatch { expected, calculated } => {
                push_str(&mut out, "Checksum mismatch: expected ");
                push_decimal(&mut out, *expected);
                push_str(&mut out, ", got ");
                push_decimal(&mut out, *calculated);
            },
            ErrorKind::InvalidFrame { message, declared_len, buffer_len, limit } => {
                push_str(&mut out, "Invalid frame: ");
                push_str(&mut out, message.as_str());
                push_frame_context(&mut out, *declared_len, *buffer_len, *limit);
            },
            ErrorKind::Flatbuffers { reason } => {
                push_str(&mut out, "FlatBuffers error: ");
                push_str(&mut out, reason.as_str());
            },
            ErrorKind::ValidationFailed { validator, reason } => {
                push_str(&mut out, "Validation failed (validator: ");
                push_str(&mut out, validator);
                push_str(&mut out, "): ");
                push_str(&mut out, reason.as_str());
            },
            ErrorKind::UnexpectedEof => {
                push_str(&mut out, "Unexpected end of file while reading stream");
            },
            ErrorKind::Poisoned => {
                push_str(
                    &mut out,
                    "stream is poisoned by a failed partial frame; consume, recover, and reconstruct it",
                );
            },
            ErrorKind::DurabilityFailed { mode, attempted_watermark, previous_watermark, source, .. } => {
                push_mode(&mut out, *mode);
                push_str(&mut out, " durability checkpoint through offset ");
                push_decimal(&mut out, *attempted_watermark);
                push_str(&mut out, " failed (previous durable watermark: ");
                push_option(&mut out, *previous_watermark);
                push_str(&mut out, "): ");
                push_str(&mut out, source.message.as_str());
            },
        }
        proof {
            assert(out@ =~= spec_message(self.spec_kind()));
        }
        string_from_chars(out.as_slice())
    }
}

} // verus!
