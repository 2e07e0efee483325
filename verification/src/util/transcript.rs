//! Fiat-Shamir transcripts.

pub mod trace;

use crate::util::field;
use crate::util::field::PrimeField;
use crate::util::hash;
use crate::{Error, ErrorView};
use std::marker::PhantomData;
use vstd::prelude::*;

verus! {

/// What a transcript can carry.
pub enum Item<C> {
    /// A field element, by its representative.
    Field(int),
    /// A piece of a commitment.
    Chunk(C),
}

/// What has happened to the state that challenges are drawn from.
pub enum Event<C> {
    /// An item was absorbed.
    Absorb(Item<C>),
    /// A challenge was drawn.
    Squeeze,
}

/// How a kind of transcript draws challenges and spells items.
#[verifier::reject_recursive_types(C)]
pub struct Model<C> {
    /// The challenge drawn after the given events.
    pub challenge: spec_fn(Seq<Event<C>>) -> int,
    /// Why an item cannot be absorbed, if it cannot.
    pub refusal: spec_fn(Item<C>) -> Option<ErrorView>,
    /// The bytes that an item is written as.
    pub spell: spec_fn(Item<C>) -> Seq<u8>,
    /// Reads a field element off the front of a proof. Either way, with what is left.
    pub parse_field: spec_fn(Seq<u8>) -> Result<(int, Seq<u8>), (ErrorView, Seq<u8>)>,
    /// Reads a commitment piece off the front of a proof. Either way, with what is left.
    pub parse_chunk: spec_fn(Seq<u8>) -> Result<(C, Seq<u8>), (ErrorView, Seq<u8>)>,
}

/// The events so far, and the proof: written so far, or left to read.
#[verifier::ext_equal]
pub struct State<C> {
    pub events: Seq<Event<C>>,
    pub proof: Seq<u8>,
}

/// Why something stopped, and the state in which it left the transcript.
#[verifier::ext_equal]
pub struct Halt<C> {
    pub error: ErrorView,
    pub state: State<C>,
}

/// The state after `item` is absorbed.
pub open spec fn absorb<C>(mo: Model<C>, st: State<C>, item: Item<C>) -> Result<
    State<C>,
    Halt<C>,
> {
    match (mo.refusal)(item) {
        Some(e) => Err(Halt { error: e, state: st }),
        None => Ok(State { events: st.events.push(Event::Absorb(item)), proof: st.proof }),
    }
}

/// The state after `item` is absorbed and written.
pub open spec fn write<C>(mo: Model<C>, st: State<C>, item: Item<C>) -> Result<
    State<C>,
    Halt<C>,
> {
    match absorb(mo, st, item) {
        Err(e) => Err(e),
        Ok(s) => Ok(State { events: s.events, proof: s.proof + (mo.spell)(item) }),
    }
}

/// The next challenge, and the state after it is drawn.
pub open spec fn squeeze<C>(mo: Model<C>, st: State<C>) -> (int, State<C>) {
    (
        (mo.challenge)(st.events),
        State { events: st.events.push(Event::Squeeze), proof: st.proof },
    )
}

/// The next field element of the proof, and the state after it is read and absorbed.
pub open spec fn read_field<C>(mo: Model<C>, st: State<C>) -> Result<(int, State<C>), Halt<C>> {
    match (mo.parse_field)(st.proof) {
        Err((e, rest)) => Err(Halt { error: e, state: State { events: st.events, proof: rest } }),
        Ok((v, rest)) => match absorb(mo, State { events: st.events, proof: rest }, Item::Field(v)) {
            Err(e) => Err(e),
            Ok(s) => Ok((v, s)),
        },
    }
}

/// The next commitment piece of the proof, and the state after it is read and absorbed.
pub open spec fn read_chunk<C>(mo: Model<C>, st: State<C>) -> Result<(C, State<C>), Halt<C>> {
    match (mo.parse_chunk)(st.proof) {
        Err((e, rest)) => Err(Halt { error: e, state: State { events: st.events, proof: rest } }),
        Ok((c, rest)) => match absorb(mo, State { events: st.events, proof: rest }, Item::Chunk(c)) {
            Err(e) => Err(e),
            Ok(s) => Ok((c, s)),
        },
    }
}

/// Whether `r`, which left the transcript in state `st`, is the failure `h`.
pub open spec fn halted<C, T>(r: Result<T, Error>, st: State<C>, h: Halt<C>) -> bool {
    r is Err && r->Err_0@ == h.error && st == h.state
}

/// Whether `r`, which left the transcript in state `st`, is what `expected` says.
pub open spec fn moved_to<C>(
    r: Result<(), Error>,
    st: State<C>,
    expected: Result<State<C>, Halt<C>>,
) -> bool {
    match expected {
        Ok(s) => r is Ok && st == s,
        Err(h) => halted(r, st, h),
    }
}

/// A transcript that absorbs items and yields challenges.
pub trait Transcript<C, F: PrimeField>: Sized {
    spec fn model() -> Model<C>;

    spec fn state(&self) -> State<C>;

    /// Challenges that are drawn in a row repeat in the end.
    proof fn challenges_repeat()
        ensures
            repeats(Self::model()),
    ;

    fn squeeze_challenge(&mut self) -> (r: F)
        ensures
            (r.val(), final(self).state()) == squeeze(Self::model(), old(self).state()),
    ;

    fn common_field_element(&mut self, fe: &F) -> (r: Result<(), Error>)
        ensures
            moved_to(r, final(self).state(), absorb(Self::model(), old(self).state(), Item::Field(fe.val()))),
    ;
}

/// A transcript that a proof is written to.
pub trait TranscriptWrite<C, F: PrimeField>: Transcript<C, F> {
    fn write_field_element(&mut self, fe: &F) -> (r: Result<(), Error>)
        ensures
            moved_to(r, final(self).state(), write(Self::model(), old(self).state(), Item::Field(fe.val()))),
    ;

    fn write_commitment(&mut self, chunk: &C) -> (r: Result<(), Error>)
        ensures
            moved_to(r, final(self).state(), write(Self::model(), old(self).state(), Item::Chunk(*chunk))),
    ;
}

/// A transcript that a proof is read from.
pub trait TranscriptRead<C, F: PrimeField>: Transcript<C, F> {
    fn read_field_element(&mut self) -> (r: Result<F, Error>)
        ensures
            match read_field(Self::model(), old(self).state()) {
                Ok((v, s)) => r is Ok && r->Ok_0.val() == v && final(self).state() == s,
                Err(h) => halted(r, final(self).state(), h),
            },
    ;

    fn read_commitment(&mut self) -> (r: Result<C, Error>)
        ensures
            match read_chunk(Self::model(), old(self).state()) {
                Ok((c, s)) => r is Ok && r->Ok_0 == c && final(self).state() == s,
                Err(h) => halted(r, final(self).state(), h),
            },
    ;
}

/// The challenges drawn next, and the state after the last of them.
pub open spec fn squeeze_many<C>(mo: Model<C>, st: State<C>, n: nat) -> (Seq<int>, State<C>)
    decreases n,
{
    if n == 0 {
        (Seq::empty(), st)
    } else {
        let (cs, s) = squeeze_many(mo, st, (n - 1) as nat);
        let (c, t) = squeeze(mo, s);
        (cs.push(c), t)
    }
}

/// The challenge that is drawn after `n` others.
pub open spec fn challenge_at<C>(mo: Model<C>, st: State<C>, n: nat) -> int {
    squeeze(mo, squeeze_many(mo, st, n).1).0
}

/// How many digests of 32 bytes there are.
pub open spec fn num_digests() -> nat {
    field::pow256(32) as nat
}

/// Whether the challenge that is drawn after `n` others is among the first, of which there
/// are as many as digests.
pub open spec fn drawn_before<C>(mo: Model<C>, st: State<C>, n: nat) -> bool {
    exists|i: nat| i < num_digests() && #[trigger] challenge_at(mo, st, i) == challenge_at(mo, st, n)
}

/// Whether challenges that are drawn in a row repeat in the end, whatever came before.
pub open spec fn repeats<C>(mo: Model<C>) -> bool {
    forall|st: State<C>, n: nat| #[trigger] drawn_before(mo, st, n)
}

/// As many challenges are drawn as were asked for.
pub proof fn lemma_squeeze_many_len<C>(mo: Model<C>, st: State<C>, n: nat)
    ensures
        squeeze_many(mo, st, n).0.len() == n,
    decreases n,
{
    if n > 0 {
        lemma_squeeze_many_len(mo, st, (n - 1) as nat);
    }
}

/// Draws `n` challenges.
pub fn squeeze_challenges<C, F: PrimeField, T: Transcript<C, F>>(
    transcript: &mut T,
    n: usize,
) -> (r: Vec<F>)
    ensures
        (field::vals(r@), final(transcript).state()) == squeeze_many(
            T::model(),
            old(transcript).state(),
            n as nat,
        ),
{
    let mut r: Vec<F> = Vec::new();
    let mut i: usize = 0;
    assert(field::vals(r@) =~= Seq::<int>::empty());
    while i < n
        invariant
            i <= n,
            (field::vals(r@), transcript.state()) == squeeze_many(
                T::model(),
                old(transcript).state(),
                i as nat,
            ),
        decreases n - i,
    {
        let ghost before = r@;
        let c = transcript.squeeze_challenge();
        r.push(c);
        i = i + 1;
        assert(field::vals(r@) =~= field::vals(before).push(c.val()));
    }
    r
}

/// The state after the field elements `vs` are written one after the other.
pub open spec fn write_fields<C>(mo: Model<C>, st: State<C>, vs: Seq<int>) -> Result<
    State<C>,
    Halt<C>,
>
    decreases vs.len(),
{
    if vs.len() == 0 {
        Ok(st)
    } else {
        match write_fields(mo, st, vs.drop_last()) {
            Err(e) => Err(e),
            Ok(s) => write(mo, s, Item::Field(vs.last())),
        }
    }
}

/// An error while writing a prefix stops the whole.
pub proof fn lemma_write_fields_prefix<C>(mo: Model<C>, st: State<C>, vs: Seq<int>, k: int)
    requires
        0 <= k <= vs.len(),
        write_fields(mo, st, vs.take(k)) is Err,
    ensures
        write_fields(mo, st, vs) == write_fields(mo, st, vs.take(k)),
    decreases vs.len() - k,
{
    if k == vs.len() {
        assert(vs.take(k) =~= vs);
    } else {
        assert(vs.take(k + 1).drop_last() =~= vs.take(k));
        lemma_write_fields_prefix(mo, st, vs, k + 1);
    }
}

/// Writes field elements one after the other.
pub fn write_field_elements<C, F: PrimeField, T: TranscriptWrite<C, F>>(
    transcript: &mut T,
    fes: &[F],
) -> (r: Result<(), Error>)
    ensures
        moved_to(r, final(transcript).state(), write_fields(T::model(), old(transcript).state(), field::vals(fes@))),
{
    let ghost vs = field::vals(fes@);
    let ghost st = transcript.state();
    let mut i: usize = 0;
    assert(vs.take(0) =~= Seq::empty());
    while i < fes.len()
        invariant
            i <= fes.len(),
            vs == field::vals(fes@),
            st == old(transcript).state(),
            write_fields(T::model(), st, vs.take(i as int)) == Ok::<State<C>, Halt<C>>(transcript.state()),
        decreases fes.len() - i,
    {
        assert(vs.take(i + 1).drop_last() =~= vs.take(i as int));
        assert(vs.take(i + 1).last() == fes@[i as int].val());
        let r = transcript.write_field_element(&fes[i]);
        if r.is_err() {
            proof {
                lemma_write_fields_prefix(T::model(), st, vs, i + 1);
            }
            return r;
        }
        i = i + 1;
    }
    assert(vs.take(vs.len() as int) =~= vs);
    Ok(())
}

/// The next `n` field elements of the proof, and the state after they are read.
pub open spec fn read_fields<C>(mo: Model<C>, st: State<C>, n: nat) -> Result<
    (Seq<int>, State<C>),
    Halt<C>,
>
    decreases n,
{
    if n == 0 {
        Ok((Seq::empty(), st))
    } else {
        match read_fields(mo, st, (n - 1) as nat) {
            Err(e) => Err(e),
            Ok((vs, s)) => match read_field(mo, s) {
                Err(e) => Err(e),
                Ok((v, t)) => Ok((vs.push(v), t)),
            },
        }
    }
}

/// As many elements are read as were asked for.
pub proof fn lemma_read_fields_len<C>(mo: Model<C>, st: State<C>, n: nat)
    ensures
        read_fields(mo, st, n) matches Ok((vs, s)) ==> vs.len() == n,
    decreases n,
{
    if n > 0 {
        lemma_read_fields_len(mo, st, (n - 1) as nat);
    }
}

/// An error while reading a prefix stops the whole.
pub proof fn lemma_read_fields_prefix<C>(mo: Model<C>, st: State<C>, k: nat, n: nat)
    requires
        k <= n,
        read_fields(mo, st, k) is Err,
    ensures
        read_fields(mo, st, n) == read_fields(mo, st, k),
    decreases n - k,
{
    if k < n {
        lemma_read_fields_prefix(mo, st, k + 1, n);
    }
}

/// Whether `r`, which left the transcript in state `st`, holds the elements that `expected` says.
pub open spec fn read_to<C, F: PrimeField>(
    r: Result<Vec<F>, Error>,
    st: State<C>,
    expected: Result<(Seq<int>, State<C>), Halt<C>>,
) -> bool {
    match expected {
        Ok((vs, s)) => r is Ok && field::vals(r->Ok_0@) == vs && st == s,
        Err(h) => halted(r, st, h),
    }
}

/// Reads `n` field elements.
pub fn read_field_elements<C, F: PrimeField, T: TranscriptRead<C, F>>(
    transcript: &mut T,
    n: usize,
) -> (r: Result<Vec<F>, Error>)
    ensures
        read_to(r, final(transcript).state(), read_fields(T::model(), old(transcript).state(), n as nat)),
{
    let ghost st = transcript.state();
    let mut out: Vec<F> = Vec::new();
    let mut i: usize = 0;
    assert(field::vals(out@) =~= Seq::<int>::empty());
    while i < n
        invariant
            i <= n,
            st == old(transcript).state(),
            read_fields(T::model(), st, i as nat) == Ok::<(Seq<int>, State<C>), Halt<C>>(
                (field::vals(out@), transcript.state()),
            ),
        decreases n - i,
    {
        let ghost before = out@;
        match transcript.read_field_element() {
            Err(e) => {
                proof {
                    lemma_read_fields_prefix(T::model(), st, (i + 1) as nat, n as nat);
                }
                return Err(e);
            },
            Ok(fe) => {
                out.push(fe);
                assert(field::vals(out@) =~= field::vals(before).push(fe.val()));
            },
        }
        i = i + 1;
    }
    Ok(out)
}

/// The bytes hashed for the next challenge after `events`.
pub open spec fn pending_bytes<F: PrimeField>(events: Seq<Event<[u8; 32]>>) -> Seq<u8>
    decreases events.len(),
{
    if events.len() == 0 {
        Seq::empty()
    } else {
        let before = pending_bytes::<F>(events.drop_last());
        match events.last() {
            Event::Absorb(item) => before + item_bytes::<F>(item),
            Event::Squeeze => hash::keccak256_32(before),
        }
    }
}

/// The bytes that an item is absorbed and written as.
pub open spec fn item_bytes<F: PrimeField>(item: Item<[u8; 32]>) -> Seq<u8> {
    match item {
        Item::Field(v) => F::repr(v),
        Item::Chunk(c) => c@,
    }
}

/// Reads a canonical field element off the front of `bytes`. Too few bytes are left where
/// they are, others are taken.
pub open spec fn parse_field_bytes<F: PrimeField>(bytes: Seq<u8>) -> Result<
    (int, Seq<u8>),
    (ErrorView, Seq<u8>),
> {
    if bytes.len() < 32 {
        Err((ErrorView::Transcript(std::io::ErrorKind::UnexpectedEof, "Proof is too short"@), bytes))
    } else if field::le_value(bytes.take(32)) >= F::modulus() {
        Err(
            (
                ErrorView::Transcript(
                    std::io::ErrorKind::Other,
                    "Invalid field element encoding in proof"@,
                ),
                bytes.skip(32),
            ),
        )
    } else {
        Ok((field::le_value(bytes.take(32)), bytes.skip(32)))
    }
}

/// The array with the given 32 entries.
pub open spec fn to_array(s: Seq<u8>) -> [u8; 32] {
    choose|a: [u8; 32]| a@ == s
}

/// Reads 32 bytes off the front of `bytes`.
pub open spec fn parse_chunk_bytes(bytes: Seq<u8>) -> Result<
    ([u8; 32], Seq<u8>),
    (ErrorView, Seq<u8>),
> {
    if bytes.len() < 32 {
        Err((ErrorView::Transcript(std::io::ErrorKind::UnexpectedEof, "Proof is too short"@), bytes))
    } else {
        Ok((to_array(bytes.take(32)), bytes.skip(32)))
    }
}

/// The model of [`Keccak256Transcript`].
pub open spec fn keccak_model<F: PrimeField>() -> Model<[u8; 32]> {
    Model {
        challenge: |events: Seq<Event<[u8; 32]>>|
            field::le_value(hash::keccak256_32(pending_bytes::<F>(events))) % F::modulus(),
        refusal: |item: Item<[u8; 32]>| None,
        spell: |item: Item<[u8; 32]>| item_bytes::<F>(item),
        parse_field: |bytes: Seq<u8>| parse_field_bytes::<F>(bytes),
        parse_chunk: |bytes: Seq<u8>| parse_chunk_bytes(bytes),
    }
}

/// An in-memory transcript that draws its challenges with Keccak-256.
pub struct Keccak256Transcript<F: PrimeField> {
    pending: Vec<u8>,
    stream: Vec<u8>,
    consumed: usize,
    events: Ghost<Seq<Event<[u8; 32]>>>,
    marker: PhantomData<F>,
}

impl<F: PrimeField> Keccak256Transcript<F> {
    #[verifier::type_invariant]
    spec fn wf(self) -> bool {
        &&& self.consumed <= self.stream@.len()
        &&& self.pending@ == pending_bytes::<F>(self.events@)
    }

    /// All bytes of the proof, read or not.
    pub closed spec fn stream(&self) -> Seq<u8> {
        self.stream@
    }

    /// How many bytes of the proof have been read.
    pub closed spec fn consumed(&self) -> int {
        self.consumed as int
    }

    pub closed spec fn events(&self) -> Seq<Event<[u8; 32]>> {
        self.events@
    }

    /// An empty transcript to write to.
    pub fn new(_param: ()) -> (r: Self)
        ensures
            r.state() == (State {
                events: Seq::<Event<[u8; 32]>>::empty(),
                proof: Seq::<u8>::empty(),
            }),
    {
        let r = Keccak256Transcript {
            pending: Vec::new(),
            stream: Vec::new(),
            consumed: 0,
            events: Ghost(Seq::empty()),
            marker: PhantomData,
        };
        assert(r.stream@.skip(0) =~= Seq::<u8>::empty());
        r
    }

    /// A transcript that reads `proof`.
    pub fn from_proof(_param: (), proof: &[u8]) -> (r: Self)
        ensures
            r.state() == (State { events: Seq::<Event<[u8; 32]>>::empty(), proof: proof@ }),
    {
        let stream = copy_bytes(proof);
        assert(stream@.skip(0) =~= proof@);
        Keccak256Transcript {
            pending: Vec::new(),
            stream,
            consumed: 0,
            events: Ghost(Seq::empty()),
            marker: PhantomData,
        }
    }

    /// The bytes of the proof: those written, or those left to read.
    pub fn into_proof(self) -> (r: Vec<u8>)
        ensures
            r@ == self.state().proof,
    {
        proof {
            use_type_invariant(&self);
        }
        let consumed = self.consumed;
        let mut stream = self.stream;
        stream.split_off(consumed)
    }
}

/// A copy of `bytes`.
fn copy_bytes(bytes: &[u8]) -> (r: Vec<u8>)
    ensures
        r@ == bytes@,
{
    let mut r: Vec<u8> = Vec::new();
    append_bytes(&mut r, bytes);
    assert(r@ =~= bytes@);
    r
}

/// Appends `bytes` to `out`.
pub(crate) fn append_bytes(out: &mut Vec<u8>, bytes: &[u8])
    ensures
        final(out)@ == old(out)@ + bytes@,
{
    let mut i: usize = 0;
    while i < bytes.len()
        invariant
            i <= bytes.len(),
            out@ == old(out)@ + bytes@.take(i as int),
        decreases bytes.len() - i,
    {
        out.push(bytes[i]);
        i = i + 1;
        assert(out@ =~= old(out)@ + bytes@.take(i as int));
    }
    assert(bytes@.take(i as int) =~= bytes@);
}

impl<F: PrimeField> Transcript<[u8; 32], F> for Keccak256Transcript<F> {
    open spec fn model() -> Model<[u8; 32]> {
        keccak_model::<F>()
    }

    open spec fn state(&self) -> State<[u8; 32]> {
        State { events: self.events(), proof: self.stream().skip(self.consumed()) }
    }

    proof fn challenges_repeat() {
        keccak_repeats::<F>();
    }

    fn squeeze_challenge(&mut self) -> (r: F) {
        let mut t = Keccak256Transcript::new(());
        std::mem::swap(&mut t, self);
        proof {
            use_type_invariant(&t);
        }
        let digest = hash::keccak256_digest(&t.pending);
        assert(digest@ =~= hash::keccak256_32(t.pending@));
        let ghost after = t.events@.push(Event::Squeeze);
        assert(after.drop_last() =~= t.events@);
        *self = Keccak256Transcript {
            pending: copy_bytes(&digest),
            stream: t.stream,
            consumed: t.consumed,
            events: Ghost(after),
            marker: PhantomData,
        };
        field::fe_mod_from_le_bytes(&digest)
    }

    fn common_field_element(&mut self, fe: &F) -> (r: Result<(), Error>) {
        let bytes = fe.to_repr();
        self.absorb_bytes(&bytes, Ghost(Item::Field(fe.val())));
        Ok(())
    }
}

impl<F: PrimeField> Keccak256Transcript<F> {
    /// Absorbs `item`, which is spelled `bytes`.
    fn absorb_bytes(&mut self, bytes: &[u8], Ghost(item): Ghost<Item<[u8; 32]>>)
        requires
            bytes@ == item_bytes::<F>(item),
        ensures
            final(self).events() == old(self).events().push(Event::Absorb(item)),
            final(self).stream() == old(self).stream(),
            final(self).consumed() == old(self).consumed(),
    {
        let mut t = Keccak256Transcript::new(());
        std::mem::swap(&mut t, self);
        proof {
            use_type_invariant(&t);
        }
        let ghost after = t.events@.push(Event::Absorb(item));
        assert(after.drop_last() =~= t.events@);
        let mut pending = t.pending;
        append_bytes(&mut pending, bytes);
        *self = Keccak256Transcript {
            pending,
            stream: t.stream,
            consumed: t.consumed,
            events: Ghost(after),
            marker: PhantomData,
        };
    }

    /// Appends `bytes` to the proof.
    fn append(&mut self, bytes: &[u8])
        ensures
            final(self).events() == old(self).events(),
            final(self).stream() == old(self).stream() + bytes@,
            final(self).consumed() == old(self).consumed(),
            final(self).stream().skip(final(self).consumed()) == old(self).stream().skip(
                old(self).consumed(),
            ) + bytes@,
    {
        let mut t = Keccak256Transcript::new(());
        std::mem::swap(&mut t, self);
        proof {
            use_type_invariant(&t);
        }
        let ghost before = t.stream@;
        let mut stream = t.stream;
        append_bytes(&mut stream, bytes);
        assert(stream@.skip(t.consumed as int) =~= before.skip(t.consumed as int) + bytes@);
        *self = Keccak256Transcript {
            pending: t.pending,
            stream,
            consumed: t.consumed,
            events: t.events,
            marker: PhantomData,
        };
    }

    /// Takes the next 32 bytes of the proof, if that many are left.
    fn next_bytes(&mut self) -> (r: Option<[u8; 32]>)
        ensures
            final(self).events() == old(self).events(),
            final(self).stream() == old(self).stream(),
            ({
                let left = old(self).stream().skip(old(self).consumed());
                match r {
                    Some(a) => left.len() >= 32 && a@ == left.take(32) && final(self).stream().skip(
                        final(self).consumed(),
                    ) == left.skip(32),
                    None => left.len() < 32 && final(self).consumed() == old(self).consumed(),
                }
            }),
    {
        proof {
            use_type_invariant(&*self);
        }
        let total = self.stream.len();
        if total - self.consumed < 32 {
            return None;
        }
        let ghost left = self.stream@.skip(self.consumed as int);
        let mut a = [0u8; 32];
        let mut i: usize = 0;
        while i < 32
            invariant
                i <= 32,
                total == self.stream@.len(),
                self.consumed + 32 <= total,
                left == self.stream@.skip(self.consumed as int),
                forall|j: int| 0 <= j < i ==> a@[j] == left[j],
            decreases 32 - i,
        {
            a[i] = self.stream[self.consumed + i];
            i = i + 1;
        }
        assert(a@ =~= left.take(32));
        self.consumed = self.consumed + 32;
        assert(self.stream@.skip(self.consumed as int) =~= left.skip(32));
        Some(a)
    }
}

impl<F: PrimeField> TranscriptWrite<[u8; 32], F> for Keccak256Transcript<F> {
    fn write_field_element(&mut self, fe: &F) -> (r: Result<(), Error>) {
        let bytes = fe.to_repr();
        self.absorb_bytes(&bytes, Ghost(Item::Field(fe.val())));
        self.append(&bytes);
        Ok(())
    }

    fn write_commitment(&mut self, chunk: &[u8; 32]) -> (r: Result<(), Error>) {
        self.absorb_bytes(chunk, Ghost(Item::Chunk(*chunk)));
        self.append(chunk);
        Ok(())
    }
}

impl<F: PrimeField> TranscriptRead<[u8; 32], F> for Keccak256Transcript<F> {
    fn read_field_element(&mut self) -> (r: Result<F, Error>) {
        match self.next_bytes() {
            None => Err(
                Error::Transcript(
                    std::io::ErrorKind::UnexpectedEof,
                    "Proof is too short".to_string(),
                ),
            ),
            Some(bytes) => match F::from_repr(bytes) {
                None => Err(
                    Error::Transcript(
                        std::io::ErrorKind::Other,
                        "Invalid field element encoding in proof".to_string(),
                    ),
                ),
                Some(fe) => {
                    proof {
                        F::val_in_range(fe);
                        F::repr_spells_value(fe.val());
                        field::lemma_le_bytes_unique(bytes@, 32);
                        field::lemma_le_bytes_unique(F::repr(fe.val()), 32);
                    }
                    self.absorb_bytes(&bytes, Ghost(Item::Field(fe.val())));
                    Ok(fe)
                },
            },
        }
    }

    fn read_commitment(&mut self) -> (r: Result<[u8; 32], Error>) {
        match self.next_bytes() {
            None => Err(
                Error::Transcript(
                    std::io::ErrorKind::UnexpectedEof,
                    "Proof is too short".to_string(),
                ),
            ),
            Some(bytes) => {
                proof {
                    lemma_to_array(bytes);
                }
                self.absorb_bytes(&bytes, Ghost(Item::Chunk(bytes)));
                Ok(bytes)
            },
        }
    }
}

/// The digest that the challenge after `n` others is made of.
pub open spec fn digest_at<F: PrimeField>(st: State<[u8; 32]>, n: nat) -> Seq<u8> {
    hash::keccak256_32(pending_bytes::<F>(squeeze_many(keccak_model::<F>(), st, n).1.events))
}

/// Each digest is that of the one before.
proof fn lemma_digest_step<F: PrimeField>(st: State<[u8; 32]>, n: nat)
    ensures
        digest_at::<F>(st, n + 1) == hash::keccak256_32(digest_at::<F>(st, n)),
{
    let before = squeeze_many(keccak_model::<F>(), st, n).1.events;
    let after = squeeze_many(keccak_model::<F>(), st, n + 1).1.events;
    assert(after == before.push(Event::Squeeze));
    assert(after.drop_last() =~= before);
}

/// Equal digests are followed by equal digests.
proof fn lemma_digests_go_on<F: PrimeField>(st: State<[u8; 32]>, i: nat, j: nat, n: nat)
    requires
        digest_at::<F>(st, i) == digest_at::<F>(st, j),
    ensures
        digest_at::<F>(st, i + n) == digest_at::<F>(st, j + n),
    decreases n,
{
    if n > 0 {
        let k = (n - 1) as nat;
        lemma_digests_go_on::<F>(st, i, j, k);
        lemma_digest_step::<F>(st, i + k);
        lemma_digest_step::<F>(st, j + k);
    }
}

/// Among more digests than there are, two are equal.
proof fn lemma_two_digests_agree<F: PrimeField>(st: State<[u8; 32]>) -> (r: (nat, nat))
    ensures
        r.0 < r.1 <= num_digests(),
        digest_at::<F>(st, r.0) == digest_at::<F>(st, r.1),
{
    let count = num_digests();
    let vs = Seq::new(count + 1, |i: int| field::le_value(digest_at::<F>(st, i as nat)));
    let all = vstd::set_lib::set_int_range(0, count as int);
    assert forall|x: int| #[trigger] vs.to_set().contains(x) implies all.contains(x) by {
        let i = choose|i: int| 0 <= i < vs.len() && vs[i] == x;
        field::lemma_le_value_bounds(digest_at::<F>(st, i as nat));
    }
    if vs.no_duplicates() {
        vs.unique_seq_to_set();
        field::lemma_le_value_bounds(digest_at::<F>(st, 0));
        vstd::set_lib::lemma_int_range(0, count as int);
        vstd::set_lib::lemma_len_subset(vs.to_set(), all);
    }
    let (a, b) = choose|a: int, b: int|
        0 <= a < vs.len() && 0 <= b < vs.len() && a != b && #[trigger] vs[a] == #[trigger] vs[b];
    field::lemma_le_bytes_unique(digest_at::<F>(st, a as nat), 32);
    field::lemma_le_bytes_unique(digest_at::<F>(st, b as nat), 32);
    if a < b {
        (a as nat, b as nat)
    } else {
        (b as nat, a as nat)
    }
}

/// Once two digests agree, every digest is among the first.
proof fn lemma_digest_among_first<F: PrimeField>(st: State<[u8; 32]>, i: nat, j: nat, n: nat) -> (r:
    nat)
    requires
        i < j <= num_digests(),
        digest_at::<F>(st, i) == digest_at::<F>(st, j),
    ensures
        r < num_digests(),
        digest_at::<F>(st, r) == digest_at::<F>(st, n),
    decreases n,
{
    if n < num_digests() {
        n
    } else {
        let k = (n - j) as nat;
        lemma_digests_go_on::<F>(st, i, j, k);
        lemma_digest_among_first::<F>(st, i, j, i + k)
    }
}

/// A Keccak-256 transcript draws its challenges from digests, each the digest of the one
/// before, so that they repeat in the end.
pub proof fn keccak_repeats<F: PrimeField>()
    ensures
        repeats(keccak_model::<F>()),
{
    let mo = keccak_model::<F>();
    assert forall|st: State<[u8; 32]>, n: nat| #[trigger] drawn_before(mo, st, n) by {
        let (i, j) = lemma_two_digests_agree::<F>(st);
        let r = lemma_digest_among_first::<F>(st, i, j, n);
        assert(challenge_at(mo, st, r) == challenge_at(mo, st, n));
    }
}

/// An array is determined by its entries.
pub proof fn lemma_to_array(a: [u8; 32])
    ensures
        to_array(a@) == a,
{
    let b = to_array(a@);
    assert(b@ == a@);
    assert forall|i: int| 0 <= i < 32 implies b[i] == a[i] by {
        assert(b@[i] == a@[i]);
    }
    assert(b =~= a);
}

/// What is spelled is read back.
pub open spec fn round_trips<C>(mo: Model<C>, modulus: int) -> bool {
    &&& forall|v: int, rest: Seq<u8>|
        0 <= v < modulus ==> #[trigger] (mo.parse_field)((mo.spell)(Item::Field(v)) + rest) == Ok::<
            (int, Seq<u8>),
            (ErrorView, Seq<u8>),
        >((v, rest))
    &&& forall|c: C, rest: Seq<u8>|
        #[trigger] (mo.parse_chunk)((mo.spell)(Item::Chunk(c)) + rest) == Ok::<
            (C, Seq<u8>),
            (ErrorView, Seq<u8>),
        >((c, rest))
}

/// A transcript read from a proof yields the items that were written to it.
pub proof fn keccak_round_trips<F: PrimeField>()
    ensures
        round_trips(keccak_model::<F>(), F::modulus()),
{
    let mo = keccak_model::<F>();
    assert forall|v: int, rest: Seq<u8>| 0 <= v < F::modulus() implies #[trigger] (mo.parse_field)(
        (mo.spell)(Item::Field(v)) + rest,
    ) == Ok::<(int, Seq<u8>), (ErrorView, Seq<u8>)>((v, rest)) by {
        F::repr_spells_value(v);
        let bytes = F::repr(v) + rest;
        assert(bytes.take(32) =~= F::repr(v));
        assert(bytes.skip(32) =~= rest);
    }
    assert forall|c: [u8; 32], rest: Seq<u8>| #[trigger] (mo.parse_chunk)(
        (mo.spell)(Item::Chunk(c)) + rest,
    ) == Ok::<([u8; 32], Seq<u8>), (ErrorView, Seq<u8>)>((c, rest)) by {
        let bytes = c@ + rest;
        assert(bytes.take(32) =~= c@);
        assert(bytes.skip(32) =~= rest);
        lemma_to_array(c);
    }
}

/// No item is refused.
pub open spec fn never_refuses<C>(mo: Model<C>) -> bool {
    forall|item: Item<C>| #[trigger] (mo.refusal)(item) is None
}

/// A Keccak-256 transcript takes every item.
pub proof fn keccak_never_refuses<F: PrimeField>()
    ensures
        never_refuses(keccak_model::<F>()),
{
}

/// Writing elements succeeds on a transcript that refuses nothing.
pub proof fn lemma_write_fields_succeeds<C>(mo: Model<C>, w: State<C>, vs: Seq<int>)
    requires
        never_refuses(mo),
    ensures
        write_fields(mo, w, vs) is Ok,
    decreases vs.len(),
{
    if vs.len() > 0 {
        lemma_write_fields_succeeds(mo, w, vs.drop_last());
    }
}

/// A reader in state `r` has seen what a writer in state `w` has written, and has
/// the rest of `whole` before it.
pub open spec fn mirrors<C>(w: State<C>, r: State<C>, whole: Seq<u8>) -> bool {
    &&& w.events == r.events
    &&& w.proof + r.proof == whole
}

/// `whole` begins with what was written up to state `w`.
pub open spec fn starts_with<C>(whole: Seq<u8>, w: State<C>) -> bool {
    w.proof.is_prefix_of(whole)
}

/// What begins with a longer writing begins with the shorter one.
pub proof fn lemma_starts_trans<C>(whole: Seq<u8>, w: State<C>, v: State<C>)
    requires
        starts_with(whole, v),
        starts_with(v.proof, w),
    ensures
        starts_with(whole, w),
{
    assert(w.proof =~= whole.subrange(0, w.proof.len() as int)) by {
        assert forall|i: int| 0 <= i < w.proof.len() implies w.proof[i] == whole[i] by {
            assert(w.proof[i] == v.proof.subrange(0, w.proof.len() as int)[i]);
            assert(v.proof[i] == whole.subrange(0, v.proof.len() as int)[i]);
        }
    }
}

/// Writing only ever appends.
pub proof fn lemma_write_appends<C>(mo: Model<C>, w: State<C>, item: Item<C>)
    requires
        write(mo, w, item) is Ok,
    ensures
        starts_with(write(mo, w, item)->Ok_0.proof, w),
{
    let after = write(mo, w, item)->Ok_0;
    assert(after.proof.subrange(0, w.proof.len() as int) =~= w.proof);
}

/// The rest of `whole` begins with what is written next.
proof fn lemma_rest_begins<C>(mo: Model<C>, w: State<C>, r: State<C>, item: Item<C>, whole: Seq<u8>) -> (rest:
    Seq<u8>)
    requires
        write(mo, w, item) is Ok,
        mirrors(w, r, whole),
        starts_with(whole, write(mo, w, item)->Ok_0),
    ensures
        r.proof == (mo.spell)(item) + rest,
        write(mo, w, item)->Ok_0.proof + rest == whole,
{
    let after = write(mo, w, item)->Ok_0.proof;
    let spelled = (mo.spell)(item);
    let rest = whole.skip(after.len() as int);
    assert(whole.subrange(0, after.len() as int) == after);
    assert(after + rest =~= whole);
    assert(r.proof =~= spelled + rest) by {
        assert(r.proof.len() == whole.len() - w.proof.len());
        assert forall|i: int| 0 <= i < r.proof.len() implies r.proof[i] == (spelled + rest)[i] by {
            assert(r.proof[i] == (w.proof + r.proof)[w.proof.len() + i]);
            assert(whole[w.proof.len() + i] == (after + rest)[w.proof.len() + i]);
        }
    }
    rest
}

/// A field element that was written is read back.
pub proof fn lemma_field_read_back<C>(
    mo: Model<C>,
    m: int,
    w: State<C>,
    r: State<C>,
    v: int,
    whole: Seq<u8>,
)
    requires
        round_trips(mo, m),
        0 <= v < m,
        write(mo, w, Item::Field(v)) is Ok,
        mirrors(w, r, whole),
        starts_with(whole, write(mo, w, Item::Field(v))->Ok_0),
    ensures
        read_field(mo, r) matches Ok((u, s)) && u == v && mirrors(
            write(mo, w, Item::Field(v))->Ok_0,
            s,
            whole,
        ),
{
    let item = Item::<C>::Field(v);
    let rest = lemma_rest_begins(mo, w, r, item, whole);
    assert((mo.parse_field)((mo.spell)(Item::Field(v)) + rest) == Ok::<(int, Seq<u8>), (ErrorView, Seq<u8>)>(
        (v, rest),
    ));
}

/// A commitment piece that was written is read back.
pub proof fn lemma_chunk_read_back<C>(
    mo: Model<C>,
    m: int,
    w: State<C>,
    r: State<C>,
    c: C,
    whole: Seq<u8>,
)
    requires
        round_trips(mo, m),
        write(mo, w, Item::Chunk(c)) is Ok,
        mirrors(w, r, whole),
        starts_with(whole, write(mo, w, Item::Chunk(c))->Ok_0),
    ensures
        read_chunk(mo, r) matches Ok((d, s)) && d == c && mirrors(
            write(mo, w, Item::Chunk(c))->Ok_0,
            s,
            whole,
        ),
{
    let item = Item::Chunk(c);
    let rest = lemma_rest_begins(mo, w, r, item, whole);
    assert((mo.parse_chunk)((mo.spell)(Item::Chunk(c)) + rest) == Ok::<(C, Seq<u8>), (ErrorView, Seq<u8>)>(
        (c, rest),
    ));
}

/// All values are reduced modulo `m`.
pub open spec fn in_range(vs: Seq<int>, m: int) -> bool {
    forall|i: int| 0 <= i < vs.len() ==> 0 <= #[trigger] vs[i] < m
}

/// Writing several elements only ever appends.
pub proof fn lemma_write_fields_appends<C>(mo: Model<C>, w: State<C>, vs: Seq<int>)
    requires
        write_fields(mo, w, vs) is Ok,
    ensures
        starts_with(write_fields(mo, w, vs)->Ok_0.proof, w),
    decreases vs.len(),
{
    if vs.len() == 0 {
        assert(w.proof.subrange(0, w.proof.len() as int) =~= w.proof);
    } else {
        lemma_write_fields_appends(mo, w, vs.drop_last());
        let mid = write_fields(mo, w, vs.drop_last())->Ok_0;
        lemma_write_appends(mo, mid, Item::Field(vs.last()));
        lemma_starts_trans(write_fields(mo, w, vs)->Ok_0.proof, w, mid);
    }
}

/// What is written does not depend on the events before.
pub proof fn lemma_write_fields_any_events<C>(
    mo: Model<C>,
    w: State<C>,
    v: State<C>,
    vs: Seq<int>,
)
    requires
        w.proof == v.proof,
        write_fields(mo, w, vs) is Ok,
    ensures
        write_fields(mo, v, vs) matches Ok(s) && s.proof == write_fields(mo, w, vs)->Ok_0.proof,
    decreases vs.len(),
{
    if vs.len() > 0 {
        lemma_write_fields_any_events(mo, w, v, vs.drop_last());
    }
}

/// Field elements that were written are read back.
pub proof fn lemma_fields_read_back<C>(
    mo: Model<C>,
    m: int,
    w: State<C>,
    r: State<C>,
    vs: Seq<int>,
    whole: Seq<u8>,
)
    requires
        round_trips(mo, m),
        in_range(vs, m),
        write_fields(mo, w, vs) is Ok,
        mirrors(w, r, whole),
        starts_with(whole, write_fields(mo, w, vs)->Ok_0),
    ensures
        read_fields(mo, r, vs.len()) matches Ok((us, s)) && us == vs && mirrors(
            write_fields(mo, w, vs)->Ok_0,
            s,
            whole,
        ),
    decreases vs.len(),
{
    if vs.len() == 0 {
        assert(vs =~= Seq::empty());
    } else {
        let mid = write_fields(mo, w, vs.drop_last())->Ok_0;
        lemma_write_appends(mo, mid, Item::Field(vs.last()));
        lemma_starts_trans(whole, mid, write_fields(mo, w, vs)->Ok_0);
        assert(in_range(vs.drop_last(), m)) by {
            assert forall|i: int| 0 <= i < vs.len() - 1 implies 0 <= #[trigger] vs.drop_last()[i]
                < m by {
                assert(0 <= vs[i] < m);
            }
        }
        lemma_fields_read_back(mo, m, w, r, vs.drop_last(), whole);
        let (us, s) = read_fields(mo, r, (vs.len() - 1) as nat)->Ok_0;
        assert(0 <= vs[vs.len() - 1] < m);
        lemma_field_read_back(mo, m, mid, s, vs.last(), whole);
        assert(us.push(vs.last()) =~= vs);
    }
}

/// Drawing challenges keeps reader and writer together.
pub proof fn lemma_squeeze_many_mirrors<C>(
    mo: Model<C>,
    w: State<C>,
    r: State<C>,
    n: nat,
    whole: Seq<u8>,
)
    requires
        mirrors(w, r, whole),
    ensures
        squeeze_many(mo, w, n).0 == squeeze_many(mo, r, n).0,
        squeeze_many(mo, w, n).1.proof == w.proof,
        mirrors(squeeze_many(mo, w, n).1, squeeze_many(mo, r, n).1, whole),
    decreases n,
{
    if n > 0 {
        lemma_squeeze_many_mirrors(mo, w, r, (n - 1) as nat, whole);
    }
}

} // verus!
