//! Validation strategies for payload safety.
//!
//! A `Validator` checks a deframed payload (after any checksum verification)
//! before the application sees it, or a payload before it is framed.
use vstd::prelude::*;

use crate::error::{Error, ErrorKind};
use crate::render::{push_decimal, push_str, spec_decimal, string_from_chars};
use crate::wire::read_u32_le;

verus! {

/// A payload validation strategy.
pub trait Validator: Send + Sync {
    /// Whether this validator is specified by [`spec_accepts`](Validator::spec_accepts)
    /// and [`spec_name`](Validator::spec_name). The validators of this
    /// library are (given specified members); one written outside verified
    /// code is not (`false`), and no clause that rests on them is claimed for it.
    open spec fn obeys_validator_spec(&self) -> bool {
        false
    }

    /// Whether this validator accepts `payload`, for a validator that obeys
    /// the specification.
    open spec fn spec_accepts(&self, payload: Seq<u8>) -> bool {
        arbitrary()
    }

    /// The name this validator reports in diagnostics, for a validator that
    /// obeys the specification.
    open spec fn spec_name(&self) -> &'static str {
        arbitrary()
    }

    /// Validates the payload: `Ok(())` exactly when it is accepted, otherwise
    /// a `ValidationFailed` error.
    fn validate(&self, payload: &[u8]) -> (r: Result<(), Error>)
        ensures
            self.obeys_validator_spec() ==> (r is Ok <==> self.spec_accepts(payload@)),
            self.obeys_validator_spec() ==> (r matches Err(e) ==> e.spec_kind() is ValidationFailed),
    ;

    /// Returns the name of this validator for diagnostics.
    fn name(&self) -> (r: &'static str)
        ensures
            self.obeys_validator_spec() ==> r == self.spec_name(),
    ;
}

/// A validator that accepts everything.
#[derive(Default, Clone, Copy)]
pub struct NoValidator;

impl Validator for NoValidator {
    open spec fn obeys_validator_spec(&self) -> bool {
        true
    }

    open spec fn spec_accepts(&self, payload: Seq<u8>) -> bool {
        true
    }

    open spec fn spec_name(&self) -> &'static str {
        "NoValidator"
    }

    fn validate(&self, _payload: &[u8]) -> (r: Result<(), Error>) {
        Ok(())
    }

    fn name(&self) -> (r: &'static str) {
        "NoValidator"
    }
}

/// The FlatBuffers verifier's verdict on the table at `table_pos` of
/// `payload` under the given depth and table-count limits: `None` when the
/// table is structurally valid, otherwise the verifier's rejection text.
pub uninterp spec fn flatbuffers_table_verdict(
    payload: Seq<u8>,
    table_pos: usize,
    max_depth: usize,
    max_tables: usize,
) -> Option<Seq<char>>;

/// Runs `flatbuffers::Verifier::visit_table` (with `finish`) on the table at
/// `table_pos`, under `VerifierOptions` with the given depth and table limits
/// and the crate's defaults otherwise; the verdict is a function of these
/// arguments alone, named by `flatbuffers_table_verdict`.
#[verifier::external_body]
fn verify_flatbuffers_table(payload: &[u8], table_pos: usize, max_depth: usize, max_tables: usize) -> (r:
    Result<(), String>)
    ensures
        match r {
            Ok(()) => flatbuffers_table_verdict(payload@, table_pos, max_depth, max_tables) is None,
            Err(reason) => flatbuffers_table_verdict(payload@, table_pos, max_depth, max_tables)
                == Some(reason@),
        },
{
    let opts = flatbuffers::VerifierOptions { max_depth, max_tables, ..Default::default() };
    let mut verifier = flatbuffers::Verifier::new(&opts, payload);
    match verifier.visit_table(table_pos) {
        Ok(table) => {
            table.finish();
            Ok(())
        },
        Err(e) => Err(e.to_string()),
    }
}

/// Structural validation of a FlatBuffer: the buffer must describe a valid
/// root table (vtable layout, depth and table-count limits), without schema
/// knowledge.
#[derive(Clone, Copy, Debug)]
pub struct StructuralValidator {
    max_depth: usize,
    max_tables: usize,
}

impl StructuralValidator {
    /// The depth limit.
    pub closed spec fn spec_max_depth(&self) -> usize {
        self.max_depth
    }

    /// The table-count limit.
    pub closed spec fn spec_max_tables(&self) -> usize {
        self.max_tables
    }

    /// A validator with conservative limits: depth 64, one million tables.
    pub fn new() -> (r: Self)
        ensures
            r.spec_max_depth() == 64,
            r.spec_max_tables() == 1_000_000,
    {
        StructuralValidator { max_depth: 64, max_tables: 1_000_000 }
    }

    /// A validator with explicit verification limits.
    pub fn with_limits(max_depth: usize, max_tables: usize) -> (r: Self)
        ensures
            r.spec_max_depth() == max_depth,
            r.spec_max_tables() == max_tables,
    {
        StructuralValidator { max_depth, max_tables }
    }
}

impl Default for StructuralValidator {
    fn default() -> (r: Self)
        ensures
            r.spec_max_depth() == 64,
            r.spec_max_tables() == 1_000_000,
    {
        Self::new()
    }
}

impl Validator for StructuralValidator {
    /// At least four bytes, and the root table that the leading offset names verifies.
    open spec fn obeys_validator_spec(&self) -> bool {
        true
    }

    open spec fn spec_accepts(&self, payload: Seq<u8>) -> bool {
        &&& payload.len() >= 4
        &&& flatbuffers_table_verdict(
            payload,
            crate::wire::le_value(payload.take(4)) as usize,
            self.spec_max_depth(),
            self.spec_max_tables(),
        ) is None
    }

    open spec fn spec_name(&self) -> &'static str {
        "StructuralValidator"
    }

    fn validate(&self, payload: &[u8]) -> (r: Result<(), Error>)
        ensures
            r matches Err(e) ==> e.spec_kind() matches ErrorKind::ValidationFailed { validator, reason }
                && validator == self.spec_name() && reason@ == (if payload@.len() < 4 {
                "buffer too small for FlatBuffer"@
            } else {
                flatbuffers_table_verdict(
                    payload@,
                    crate::wire::le_value(payload@.take(4)) as usize,
                    self.spec_max_depth(),
                    self.spec_max_tables(),
                )->0
            }),
    {
        if payload.len() < 4 {
            return Err(Error::validation_failed(self.name(), "buffer too small for FlatBuffer"));
        }
        let root = read_u32_le(payload);
        match verify_flatbuffers_table(payload, root, self.max_depth, self.max_tables) {
            Ok(()) => Ok(()),
            Err(reason) => Err(
                Error::from_kind(ErrorKind::ValidationFailed { validator: self.name(), reason }),
            ),
        }
    }

    fn name(&self) -> (r: &'static str) {
        "StructuralValidator"
    }
}

/// The reason a `size`-byte payload is below the minimum `min`.
pub open spec fn spec_below_min_reason(size: usize, min: usize) -> Seq<char> {
    "payload size "@ + spec_decimal(size as nat) + " is less than min "@ + spec_decimal(min as nat)
}

/// The reason a `size`-byte payload is above the maximum `max`.
pub open spec fn spec_above_max_reason(size: usize, max: usize) -> Seq<char> {
    "payload size "@ + spec_decimal(size as nat) + " exceeds max "@ + spec_decimal(max as nat)
}

/// Renders the reason a payload is below the minimum size.
fn below_min_reason(size: usize, min: usize) -> (r: String)
    ensures
        r@ == spec_below_min_reason(size, min),
{
    let mut out: Vec<char> = Vec::new();
    push_str(&mut out, "payload size ");
    push_decimal(&mut out, size as u64);
    push_str(&mut out, " is less than min ");
    push_decimal(&mut out, min as u64);
    proof {
        assert(out@ =~= spec_below_min_reason(size, min));
    }
    string_from_chars(out.as_slice())
}

/// Renders the reason a payload is above the maximum size.
fn above_max_reason(size: usize, max: usize) -> (r: String)
    ensures
        r@ == spec_above_max_reason(size, max),
{
    let mut out: Vec<char> = Vec::new();
    push_str(&mut out, "payload size ");
    push_decimal(&mut out, size as u64);
    push_str(&mut out, " exceeds max ");
    push_decimal(&mut out, max as u64);
    proof {
        assert(out@ =~= spec_above_max_reason(size, max));
    }
    string_from_chars(out.as_slice())
}

/// Size sanity checks: the payload length must lie in `[min_size, max_size]`.
#[derive(Clone, Copy, Debug)]
pub struct SizeValidator {
    min_size: usize,
    max_size: usize,
}

impl SizeValidator {
    /// The smallest accepted length.
    pub closed spec fn spec_min_size(&self) -> usize {
        self.min_size
    }

    /// The largest accepted length.
    pub closed spec fn spec_max_size(&self) -> usize {
        self.max_size
    }

    /// A validator accepting lengths in `[min_size, max_size]`.
    pub fn new(min_size: usize, max_size: usize) -> (r: Self)
        ensures
            r.spec_min_size() == min_size,
            r.spec_max_size() == max_size,
    {
        SizeValidator { min_size, max_size }
    }
}

impl Validator for SizeValidator {
    open spec fn obeys_validator_spec(&self) -> bool {
        true
    }

    open spec fn spec_accepts(&self, payload: Seq<u8>) -> bool {
        self.spec_min_size() <= payload.len() <= self.spec_max_size()
    }

    open spec fn spec_name(&self) -> &'static str {
        "SizeValidator"
    }

    fn validate(&self, payload: &[u8]) -> (r: Result<(), Error>)
        ensures
            r matches Err(e) ==> e.spec_kind() matches ErrorKind::ValidationFailed { validator, reason }
                && validator == self.spec_name() && reason@ == if payload@.len() < self.spec_min_size() {
                spec_below_min_reason(payload@.len() as usize, self.spec_min_size())
            } else {
                spec_above_max_reason(payload@.len() as usize, self.spec_max_size())
            },
    {
        let size = payload.len();
        if size < self.min_size {
            let reason = below_min_reason(size, self.min_size);
            return Err(
                Error::from_kind(ErrorKind::ValidationFailed { validator: self.name(), reason }),
            );
        }
        if size > self.max_size {
            let reason = above_max_reason(size, self.max_size);
            return Err(
                Error::from_kind(ErrorKind::ValidationFailed { validator: self.name(), reason }),
            );
        }
        Ok(())
    }

    fn name(&self) -> (r: &'static str) {
        "SizeValidator"
    }
}

/// One validator of a [`CompositeValidator`] pipeline.
pub struct Member(pub Box<dyn Validator>);

fn member<V: Validator + 'static>(validator: V) -> (r: Member) {
    let boxed: Box<dyn Validator> = Box::new(validator);
    Member(boxed)
}

fn push_member(v: &mut Vec<Member>, m: Member)
    ensures
        final(v)@.len() == old(v)@.len() + 1,
        final(v)@.take(old(v)@.len() as int) == old(v)@,
        final(v)@.last() == m,
{
    let ghost before = v@;
    v.push(m);
    assert(v@.take(before.len() as int) =~= before);
}

/// A pipeline of validators with AND semantics, run in insertion order.
pub struct CompositeValidator {
    validators: Vec<Member>,
}

impl CompositeValidator {
    /// The member validators, in order.
    pub closed spec fn members(&self) -> Seq<Member> {
        self.validators@
    }

    /// An empty pipeline, which accepts everything.
    pub fn new() -> (r: Self)
        ensures
            r.members().len() == 0,
    {
        CompositeValidator { validators: Vec::new() }
    }

    /// Appends a validator to the pipeline.
    pub fn add<V: Validator + 'static>(self, validator: V) -> (r: Self)
        ensures
            r.members().len() == self.members().len() + 1,
            r.members().take(self.members().len() as int) == self.members(),
    {
        let mut validators = self.validators;
        push_member(&mut validators, member(validator));
        CompositeValidator { validators }
    }
}

impl Default for CompositeValidator {
    fn default() -> (r: Self)
        ensures
            r.members().len() == 0,
    {
        Self::new()
    }
}

impl std::ops::Add<Box<dyn Validator>> for CompositeValidator {
    type Output = CompositeValidator;

    /// Appends an already boxed validator to the pipeline (`composite + boxed`).
    fn add(self, rhs: Box<dyn Validator>) -> CompositeValidator {
        let mut validators = self.validators;
        push_member(&mut validators, Member(rhs));
        CompositeValidator { validators }
    }
}

impl vstd::std_specs::ops::AddSpecImpl<Box<dyn Validator>> for CompositeValidator {
    /// The pipeline's members are boxed trait objects, which a specification
    /// cannot rebuild, so `+` claims no result value.
    open spec fn obeys_add_spec() -> bool {
        false
    }

    open spec fn add_req(self, rhs: Box<dyn Validator>) -> bool {
        true
    }

    open spec fn add_spec(self, rhs: Box<dyn Validator>) -> CompositeValidator {
        arbitrary()
    }
}

impl Validator for CompositeValidator {
    /// Every member accepts the payload.
    open spec fn obeys_validator_spec(&self) -> bool {
        forall|i: int| 0 <= i < self.members().len() ==> #[trigger] self.members()[i].0.obeys_validator_spec()
    }

    open spec fn spec_accepts(&self, payload: Seq<u8>) -> bool {
        forall|i: int| 0 <= i < self.members().len() ==> #[trigger] self.members()[i].0.spec_accepts(payload)
    }

    open spec fn spec_name(&self) -> &'static str {
        "CompositeValidator"
    }

    /// Runs the members in order and stops at the first that rejects the
    /// payload, returning its error.
    fn validate(&self, payload: &[u8]) -> (r: Result<(), Error>)
        ensures
            r matches Err(e) ==> exists|i: int|
                0 <= i < self.members().len() && (forall|j: int|
                    0 <= j < i ==> (#[trigger] self.members()[j].0.obeys_validator_spec()
                        ==> self.members()[j].0.spec_accepts(payload@))) && (
                #[trigger] self.members()[i].0.obeys_validator_spec() ==> !self.members()[i].0.spec_accepts(payload@)
                    && e.spec_kind() is ValidationFailed),
    {
        let mut i: usize = 0;
        while i < self.validators.len()
            invariant
                0 <= i <= self.members().len(),
                self.obeys_validator_spec() ==> forall|j: int| 0 <= j < i ==> #[trigger] self.members()[j].0.spec_accepts(payload@),
                forall|j: int| 0 <= j < i ==> (#[trigger] self.members()[j].0.obeys_validator_spec()
                    ==> self.members()[j].0.spec_accepts(payload@)),
            decreases self.members().len() - i,
        {
            match self.validators[i].0.validate(payload) {
                Ok(()) => {},
                Err(e) => {
                    assert(self.obeys_validator_spec() ==> self.members()[i as int].0.obeys_validator_spec());
                    return Err(e);
                },
            }
            i = i + 1;
        }
        Ok(())
    }

    fn name(&self) -> (r: &'static str) {
        "CompositeValidator"
    }
}

} // verus!
