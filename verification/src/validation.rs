//! Deciding whether a new link may be made.
//!
//! A validator looks at the two pins, at the cache's pin table and at the
//! links that exist, and answers [`ValidationResult::Valid`] or the first
//! rule that the link breaks. Validators hold no state and change nothing:
//! what one answers is a function of what it is shown, written down as its
//! [`verdict`](LinkValidator::verdict).

use crate::graph::{has_link_between, GraphLogic, LinkModel};
use crate::state::{GeometryCache, StoredPin};
use vstd::prelude::*;
use vstd::std_specs::hash::group_hash_axioms;
use vstd::string::StringExecFns;

verus! {

broadcast use group_hash_axioms;

/// Why a link was refused.
#[derive(Debug, Clone, PartialEq, Eq)]
pub enum ValidationError {
    /// The cache knows no pin of this id.
    PinNotFound(i32),
    /// Both ends are the same pin.
    SamePin,
    /// Both pins belong to one node.
    SameNode,
    /// Both pins are outputs, or neither is.
    IncompatibleDirection,
    /// A link between these pins, in this direction, exists.
    DuplicateLink,
    /// The pin already carries as many links as it may.
    MaxConnectionsReached { pin_id: i32, max: usize },
    /// The pins carry data of different kinds.
    TypeMismatch { expected: i32, found: i32 },
    /// A rule of the application's own, in its words.
    Custom(String),
}

/// The answer of a validator.
#[derive(Debug, Clone, PartialEq, Eq)]
pub enum ValidationResult {
    /// The link may be made.
    Valid,
    /// The link is refused, for this reason.
    Invalid(ValidationError),
}

impl ValidationResult {
    /// Whether the link may be made.
    pub fn is_valid(&self) -> (valid: bool)
        ensures
            valid == (*self is Valid),
    {
        match self {
            ValidationResult::Valid => true,
            ValidationResult::Invalid(_) => false,
        }
    }

    /// Both answers together: the first refusal, or `Valid` when there is
    /// none.
    pub fn and(self, other: ValidationResult) -> (both: ValidationResult)
        ensures
            both == if self is Valid {
                other
            } else {
                self
            },
    {
        match self {
            ValidationResult::Valid => other,
            invalid => invalid,
        }
    }
}

/// The character that stands for the digit `d`.
pub open spec fn digit_char(d: nat) -> char {
    if d == 0 {
        '0'
    } else if d == 1 {
        '1'
    } else if d == 2 {
        '2'
    } else if d == 3 {
        '3'
    } else if d == 4 {
        '4'
    } else if d == 5 {
        '5'
    } else if d == 6 {
        '6'
    } else if d == 7 {
        '7'
    } else if d == 8 {
        '8'
    } else {
        '9'
    }
}

/// The decimal digits of `n`, most significant first, without leading zeros.
pub open spec fn decimal_digits(n: nat) -> Seq<char>
    decreases n,
{
    if n < 10 {
        seq![digit_char(n)]
    } else {
        decimal_digits(n / 10).push(digit_char(n % 10))
    }
}

/// `i` written in decimal, with a minus sign in front when it is negative.
pub open spec fn decimal(i: int) -> Seq<char> {
    if i < 0 {
        seq!['-'] + decimal_digits((-i) as nat)
    } else {
        decimal_digits(i as nat)
    }
}

impl ValidationError {
    /// The sentence that tells a user of this refusal.
    pub open spec fn text(self) -> Seq<char> {
        match self {
            ValidationError::PinNotFound(id) => "Pin "@ + decimal(id as int) + " not found"@,
            ValidationError::SamePin => "Cannot link pin to itself"@,
            ValidationError::SameNode => "Cannot link pins on same node"@,
            ValidationError::IncompatibleDirection => "Must connect input to output"@,
            ValidationError::DuplicateLink => "Link already exists"@,
            ValidationError::MaxConnectionsReached { pin_id, max } => "Pin "@ + decimal(
                pin_id as int,
            ) + " has reached max "@ + decimal(max as int) + " connections"@,
            ValidationError::TypeMismatch { expected, found } => "Type mismatch: expected "@
                + decimal(expected as int) + ", found "@ + decimal(found as int),
            ValidationError::Custom(message) => message@,
        }
    }

    /// The sentence that tells a user of this refusal, as a string.
    pub fn to_string(&self) -> (sentence: String)
        ensures
            sentence@ == self.text(),
    {
        match self {
            ValidationError::PinNotFound(id) => {
                let mut out = String::from_str("Pin ");
                append_signed(&mut out, *id);
                out.append(" not found");
                out
            },
            ValidationError::SamePin => String::from_str("Cannot link pin to itself"),
            ValidationError::SameNode => String::from_str("Cannot link pins on same node"),
            ValidationError::IncompatibleDirection => String::from_str(
                "Must connect input to output",
            ),
            ValidationError::DuplicateLink => String::from_str("Link already exists"),
            ValidationError::MaxConnectionsReached { pin_id, max } => {
                let mut out = String::from_str("Pin ");
                append_signed(&mut out, *pin_id);
                out.append(" has reached max ");
                append_digits(&mut out, *max as u64);
                out.append(" connections");
                out
            },
            ValidationError::TypeMismatch { expected, found } => {
                let mut out = String::from_str("Type mismatch: expected ");
                append_signed(&mut out, *expected);
                out.append(", found ");
                append_signed(&mut out, *found);
                out
            },
            ValidationError::Custom(message) => message.clone(),
        }
    }
}

/// The one-character string for the digit `d`.
fn digit_str(d: u64) -> (s: &'static str)
    requires
        d < 10,
    ensures
        s@ == seq![digit_char(d as nat)],
{
    proof {
        reveal_strlit("0");
        reveal_strlit("1");
        reveal_strlit("2");
        reveal_strlit("3");
        reveal_strlit("4");
        reveal_strlit("5");
        reveal_strlit("6");
        reveal_strlit("7");
        reveal_strlit("8");
        reveal_strlit("9");
    }
    let s = if d == 0 {
        "0"
    } else if d == 1 {
        "1"
    } else if d == 2 {
        "2"
    } else if d == 3 {
        "3"
    } else if d == 4 {
        "4"
    } else if d == 5 {
        "5"
    } else if d == 6 {
        "6"
    } else if d == 7 {
        "7"
    } else if d == 8 {
        "8"
    } else {
        "9"
    };
    assert(s@ =~= seq![digit_char(d as nat)]);
    s
}

/// Appends `n` in decimal.
fn append_digits(out: &mut String, n: u64)
    ensures
        final(out)@ == old(out)@ + decimal_digits(n as nat),
    decreases n,
{
    if n >= 10 {
        append_digits(out, n / 10);
    }
    let ghost before = out@;
    out.append(digit_str(n % 10));
    proof {
        if n >= 10 {
            assert(out@ =~= old(out)@ + decimal_digits((n / 10) as nat).push(
                digit_char((n % 10) as nat),
            ));
        } else {
            assert(out@ =~= old(out)@ + seq![digit_char(n as nat)]);
        }
    }
}

/// Appends `value` in decimal, with its sign.
fn append_signed(out: &mut String, value: i32)
    ensures
        final(out)@ == old(out)@ + decimal(value as int),
{
    if value < 0 {
        proof {
            reveal_strlit("-");
        }
        out.append("-");
        let magnitude: u64 = (-(value as i64)) as u64;
        append_digits(out, magnitude);
        assert(out@ =~= old(out)@ + (seq!['-'] + decimal_digits((-(value as int)) as nat)));
    } else {
        append_digits(out, value as u64);
    }
}

/// A rule that a new link must keep.
///
/// `N` and `C` are those of the cache, `L` is the application's link type.
/// A validator states in [`verdict`](LinkValidator::verdict) what it answers;
/// left as it is, `verdict` says nothing.
pub trait LinkValidator<N, C, L> {
    /// What this validator answers for a link from `start_pin` to `end_pin`,
    /// given the cache's nodes and pins and the links that exist.
    open spec fn verdict(
        &self,
        start_pin: i32,
        end_pin: i32,
        nodes: Map<i32, N>,
        pins: Map<i32, StoredPin<C>>,
        links: Seq<L>,
    ) -> ValidationResult {
        arbitrary()
    }

    /// Judges a link from `start_pin` to `end_pin`.
    fn validate(
        &self,
        start_pin: i32,
        end_pin: i32,
        cache: &GeometryCache<N, C>,
        links: &[L],
    ) -> (result: ValidationResult)
        ensures
            result == self.verdict(
                start_pin,
                end_pin,
                cache.node_rects@,
                cache.pin_positions@,
                links@,
            ),
    ;
}

/// The rules that every link keeps: two different pins, both known, on
/// different nodes, exactly one of them an output.
///
/// The rules are tried in that order, and the first that fails is the
/// answer. A missing start pin is reported before a missing end pin.
pub open spec fn basic_verdict<C>(
    output_type: i32,
    pins: Map<i32, StoredPin<C>>,
    start_pin: i32,
    end_pin: i32,
) -> ValidationResult {
    if start_pin == end_pin {
        ValidationResult::Invalid(ValidationError::SamePin)
    } else if !pins.contains_key(start_pin) {
        ValidationResult::Invalid(ValidationError::PinNotFound(start_pin))
    } else if !pins.contains_key(end_pin) {
        ValidationResult::Invalid(ValidationError::PinNotFound(end_pin))
    } else if pins[start_pin].node_id == pins[end_pin].node_id {
        ValidationResult::Invalid(ValidationError::SameNode)
    } else if (pins[start_pin].pin_type == output_type) == (pins[end_pin].pin_type
        == output_type) {
        ValidationResult::Invalid(ValidationError::IncompatibleDirection)
    } else {
        ValidationResult::Valid
    }
}

/// The rule that no link is made twice: refused when a link from `start_pin`
/// to `end_pin` exists.
pub open spec fn no_duplicates_verdict<L: LinkModel>(
    links: Seq<L>,
    start_pin: i32,
    end_pin: i32,
) -> ValidationResult {
    if has_link_between(links, start_pin, end_pin) {
        ValidationResult::Invalid(ValidationError::DuplicateLink)
    } else {
        ValidationResult::Valid
    }
}

/// Checks the rules of [`basic_verdict`], for the pin kind that the
/// application calls an output.
#[derive(Clone, Copy, Debug)]
pub struct BasicLinkValidator {
    output_type: i32,
}

impl BasicLinkValidator {
    /// A validator for which pins of kind `output_type` are outputs.
    pub fn new(output_type: i32) -> (validator: Self)
        ensures
            validator.output_type() == output_type,
    {
        BasicLinkValidator { output_type }
    }

    /// The pin kind that counts as an output.
    pub closed spec fn output_type(&self) -> i32 {
        self.output_type
    }
}

impl<N, C, L> LinkValidator<N, C, L> for BasicLinkValidator {
    open spec fn verdict(
        &self,
        start_pin: i32,
        end_pin: i32,
        nodes: Map<i32, N>,
        pins: Map<i32, StoredPin<C>>,
        links: Seq<L>,
    ) -> ValidationResult {
        basic_verdict(self.output_type(), pins, start_pin, end_pin)
    }

    fn validate(
        &self,
        start_pin: i32,
        end_pin: i32,
        cache: &GeometryCache<N, C>,
        links: &[L],
    ) -> (result: ValidationResult) {
        if start_pin == end_pin {
            return ValidationResult::Invalid(ValidationError::SamePin);
        }
        let start_pos = match cache.pin_positions.get(&start_pin) {
            Some(pin) => pin,
            None => {
                return ValidationResult::Invalid(ValidationError::PinNotFound(start_pin));
            },
        };
        let end_pos = match cache.pin_positions.get(&end_pin) {
            Some(pin) => pin,
            None => {
                return ValidationResult::Invalid(ValidationError::PinNotFound(end_pin));
            },
        };
        if start_pos.node_id == end_pos.node_id {
            return ValidationResult::Invalid(ValidationError::SameNode);
        }
        let start_is_output = start_pos.pin_type == self.output_type;
        let end_is_output = end_pos.pin_type == self.output_type;
        if start_is_output == end_is_output {
            return ValidationResult::Invalid(ValidationError::IncompatibleDirection);
        }
        ValidationResult::Valid
    }
}

/// Refuses a link that exists already, in the same direction.
#[derive(Clone, Copy, Debug, Default)]
pub struct NoDuplicatesValidator;

impl<N, C, L: LinkModel> LinkValidator<N, C, L> for NoDuplicatesValidator {
    open spec fn verdict(
        &self,
        start_pin: i32,
        end_pin: i32,
        nodes: Map<i32, N>,
        pins: Map<i32, StoredPin<C>>,
        links: Seq<L>,
    ) -> ValidationResult {
        no_duplicates_verdict(links, start_pin, end_pin)
    }

    fn validate(
        &self,
        start_pin: i32,
        end_pin: i32,
        cache: &GeometryCache<N, C>,
        links: &[L],
    ) -> (result: ValidationResult) {
        if GraphLogic::duplicate_link_exists(start_pin, end_pin, links) {
            ValidationResult::Invalid(ValidationError::DuplicateLink)
        } else {
            ValidationResult::Valid
        }
    }
}

/// One of the validators that this crate brings, as a value: what a
/// [`CompositeValidator`] holds when it mixes them.
#[derive(Clone, Copy, Debug)]
pub enum StandardValidator {
    Basic(BasicLinkValidator),
    NoDuplicates(NoDuplicatesValidator),
}

impl<N, C, L: LinkModel> LinkValidator<N, C, L> for StandardValidator {
    open spec fn verdict(
        &self,
        start_pin: i32,
        end_pin: i32,
        nodes: Map<i32, N>,
        pins: Map<i32, StoredPin<C>>,
        links: Seq<L>,
    ) -> ValidationResult {
        match *self {
            StandardValidator::Basic(basic) => basic_verdict(
                basic.output_type(),
                pins,
                start_pin,
                end_pin,
            ),
            StandardValidator::NoDuplicates(_) => no_duplicates_verdict(links, start_pin, end_pin),
        }
    }

    fn validate(
        &self,
        start_pin: i32,
        end_pin: i32,
        cache: &GeometryCache<N, C>,
        links: &[L],
    ) -> (result: ValidationResult) {
        match self {
            StandardValidator::Basic(basic) => basic.validate(start_pin, end_pin, cache, links),
            StandardValidator::NoDuplicates(no_duplicates) => no_duplicates.validate(
                start_pin,
                end_pin,
                cache,
                links,
            ),
        }
    }
}

/// What a sequence of validators answers together: the answer of the first
/// that refuses, or `Valid` when none does.
pub open spec fn composite_verdict<N, C, L, V: LinkValidator<N, C, L>>(
    validators: Seq<V>,
    start_pin: i32,
    end_pin: i32,
    nodes: Map<i32, N>,
    pins: Map<i32, StoredPin<C>>,
    links: Seq<L>,
) -> ValidationResult
    decreases validators.len(),
{
    if validators.len() == 0 {
        ValidationResult::Valid
    } else {
        let first = validators[0].verdict(start_pin, end_pin, nodes, pins, links);
        if first is Valid {
            composite_verdict(validators.drop_first(), start_pin, end_pin, nodes, pins, links)
        } else {
            first
        }
    }
}

/// Validators that are asked one after the other, in the order in which
/// they were added. The first refusal is the answer; the validators behind
/// it are not asked.
pub struct CompositeValidator<V> {
    validators: Vec<V>,
}

impl<V> View for CompositeValidator<V> {
    type V = Seq<V>;

    closed spec fn view(&self) -> Seq<V> {
        self.validators@
    }
}

impl<V> Default for CompositeValidator<V> {
    fn default() -> (composite: Self)
        ensures
            composite@ == Seq::<V>::empty(),
    {
        CompositeValidator { validators: Vec::new() }
    }
}

impl<V> CompositeValidator<V> {
    /// A composite of no validators, which accepts every link.
    pub fn new() -> (composite: Self)
        ensures
            composite@ == Seq::<V>::empty(),
    {
        CompositeValidator { validators: Vec::new() }
    }

    /// The composite with `validator` added behind those it has.
    pub fn add(self, validator: V) -> (composite: Self)
        ensures
            composite@ == self@.push(validator),
    {
        let mut validators = self.validators;
        validators.push(validator);
        CompositeValidator { validators }
    }
}

impl<N, C, L, V: LinkValidator<N, C, L>> LinkValidator<N, C, L> for CompositeValidator<V> {
    open spec fn verdict(
        &self,
        start_pin: i32,
        end_pin: i32,
        nodes: Map<i32, N>,
        pins: Map<i32, StoredPin<C>>,
        links: Seq<L>,
    ) -> ValidationResult {
        composite_verdict(self@, start_pin, end_pin, nodes, pins, links)
    }

    fn validate(
        &self,
        start_pin: i32,
        end_pin: i32,
        cache: &GeometryCache<N, C>,
        links: &[L],
    ) -> (result: ValidationResult) {
        let n = self.validators.len();
        let mut i: usize = 0;
        assert(self.validators@.skip(0) =~= self.validators@);
        while i < n
            invariant
                n == self.validators.len(),
                i <= n,
                composite_verdict(
                    self.validators@,
                    start_pin,
                    end_pin,
                    cache.node_rects@,
                    cache.pin_positions@,
                    links@,
                ) == composite_verdict(
                    self.validators@.skip(i as int),
                    start_pin,
                    end_pin,
                    cache.node_rects@,
                    cache.pin_positions@,
                    links@,
                ),
            decreases n - i,
        {
            let result = self.validators[i].validate(start_pin, end_pin, cache, links);
            proof {
                let rest = self.validators@.skip(i as int);
                assert(rest[0] == self.validators@[i as int]);
                assert(rest.drop_first() =~= self.validators@.skip(i + 1));
            }
            if !result.is_valid() {
                return result;
            }
            i += 1;
        }
        ValidationResult::Valid
    }
}

/// Judges a link from `start_pin` to `end_pin` with `validator`.
pub fn validate_link<V: LinkValidator<N, C, L>, N, C, L>(
    start_pin: i32,
    end_pin: i32,
    cache: &GeometryCache<N, C>,
    links: &[L],
    validator: &V,
) -> (result: ValidationResult)
    ensures
        result == validator.verdict(
            start_pin,
            end_pin,
            cache.node_rects@,
            cache.pin_positions@,
            links@,
        ),
{
    validator.validate(start_pin, end_pin, cache, links)
}

/// A composite answers what its first refusing validator answers: when the
/// validators before position `i` accept and the one at `i` refuses, the
/// composite's answer is that refusal, whatever stands behind it.
pub proof fn lemma_composite_reports_first_refusal<N, C, L, V: LinkValidator<N, C, L>>(
    validators: Seq<V>,
    i: int,
    start_pin: i32,
    end_pin: i32,
    nodes: Map<i32, N>,
    pins: Map<i32, StoredPin<C>>,
    links: Seq<L>,
)
    requires
        0 <= i < validators.len(),
        forall|j: int|
            0 <= j < i ==> #[trigger] validators[j].verdict(start_pin, end_pin, nodes, pins, links)
                is Valid,
        !(validators[i].verdict(start_pin, end_pin, nodes, pins, links) is Valid),
    ensures
        composite_verdict(validators, start_pin, end_pin, nodes, pins, links)
            == validators[i].verdict(start_pin, end_pin, nodes, pins, links),
    decreases i,
{
    if i > 0 {
        let rest = validators.drop_first();
        assert forall|j: int| 0 <= j < i - 1 implies #[trigger] rest[j].verdict(
            start_pin,
            end_pin,
            nodes,
            pins,
            links,
        ) is Valid by {
            assert(rest[j] == validators[j + 1]);
        }
        assert(rest[i - 1] == validators[i]);
        lemma_composite_reports_first_refusal(rest, i - 1, start_pin, end_pin, nodes, pins, links);
    }
}

/// A composite accepts exactly when each of its validators accepts.
pub proof fn lemma_composite_accepts_iff_all_accept<N, C, L, V: LinkValidator<N, C, L>>(
    validators: Seq<V>,
    start_pin: i32,
    end_pin: i32,
    nodes: Map<i32, N>,
    pins: Map<i32, StoredPin<C>>,
    links: Seq<L>,
)
    ensures
        composite_verdict(validators, start_pin, end_pin, nodes, pins, links) is Valid <==> forall|
            j: int,
        |
            0 <= j < validators.len() ==> #[trigger] validators[j].verdict(
                start_pin,
                end_pin,
                nodes,
                pins,
                links,
            ) is Valid,
    decreases validators.len(),
{
    if validators.len() > 0 {
        let rest = validators.drop_first();
        lemma_composite_accepts_iff_all_accept(rest, start_pin, end_pin, nodes, pins, links);
        assert forall|j: int| 0 <= j < rest.len() implies rest[j] == validators[j + 1] by {}
        if composite_verdict(validators, start_pin, end_pin, nodes, pins, links) is Valid {
            assert forall|j: int|
                0 <= j < validators.len() implies #[trigger] validators[j].verdict(
                start_pin,
                end_pin,
                nodes,
                pins,
                links,
            ) is Valid by {
                if j > 0 {
                    assert(rest[j - 1] == validators[j]);
                }
            }
        } else if validators[0].verdict(start_pin, end_pin, nodes, pins, links) is Valid {
            let k = choose|k: int|
                0 <= k < rest.len() && !(#[trigger] rest[k].verdict(
                    start_pin,
                    end_pin,
                    nodes,
                    pins,
                    links,
                ) is Valid);
            assert(rest[k] == validators[k + 1]);
        }
    }
}

/// The basic rules in front of the duplicate check: a link from a pin to
/// itself is refused as `SamePin`, whatever the cache and the links hold, so
/// the duplicate check has no say.
pub proof fn lemma_same_pin_reported_first<N, C, L: LinkModel>(
    basic: BasicLinkValidator,
    pin: i32,
    nodes: Map<i32, N>,
    pins: Map<i32, StoredPin<C>>,
    links: Seq<L>,
)
    ensures
        composite_verdict(
            seq![
                StandardValidator::Basic(basic),
                StandardValidator::NoDuplicates(NoDuplicatesValidator),
            ],
            pin,
            pin,
            nodes,
            pins,
            links,
        ) == ValidationResult::Invalid(ValidationError::SamePin),
{
    let validators = seq![
        StandardValidator::Basic(basic),
        StandardValidator::NoDuplicates(NoDuplicatesValidator),
    ];
    assert(validators[0].verdict(pin, pin, nodes, pins, links) == ValidationResult::Invalid(
        ValidationError::SamePin,
    ));
    lemma_composite_reports_first_refusal(validators, 0, pin, pin, nodes, pins, links);
}

} // verus!
