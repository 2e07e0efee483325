//! What operations leave behind in a transcript.

use crate::util::field;
use crate::util::field::PrimeField;
use crate::util::hash;
use crate::util::transcript;
use crate::util::transcript::{Event, Halt, Item, Model, State};
use crate::ErrorView;
use vstd::prelude::*;

verus! {

/// The events of absorbing field elements, one after the other.
pub open spec fn fields<C>(vs: Seq<int>) -> Seq<Event<C>> {
    vs.map_values(|v: int| Event::Absorb(Item::Field(v)))
}

/// The events of absorbing commitment pieces, one after the other.
pub open spec fn chunks<C>(cs: Seq<C>) -> Seq<Event<C>> {
    cs.map_values(|c: C| Event::Absorb(Item::Chunk(c)))
}

/// The events of drawing `n` challenges.
pub open spec fn squeezes<C>(n: nat) -> Seq<Event<C>> {
    Seq::new(n, |i: int| Event::Squeeze)
}

/// Whether `s` comes after `st`: what happened until `st` has still happened.
pub open spec fn follows<C>(s: State<C>, st: State<C>) -> bool {
    &&& st.events.len() <= s.events.len()
    &&& s.events.take(st.events.len() as int) == st.events
}

/// What comes after something later comes after what was before it.
pub proof fn lemma_follows_trans<C>(s: State<C>, t: State<C>, u: State<C>)
    requires
        follows(t, s),
        follows(u, t),
    ensures
        follows(u, s),
{
    assert(u.events.take(s.events.len() as int) =~= t.events.take(s.events.len() as int));
}

/// More events come after fewer.
pub proof fn lemma_follows_more<C>(s: State<C>, t: State<C>, more: Seq<Event<C>>)
    requires
        t.events == s.events + more,
    ensures
        follows(t, s),
{
    assert(t.events.take(s.events.len() as int) =~= s.events);
}

/// Whatever is absorbed is the latest event, and whatever is written is absorbed and stands
/// at the end of the proof. What is refused changes nothing.
pub proof fn law_items_are_absorbed<C>(mo: Model<C>, st: State<C>, item: Item<C>)
    ensures
        transcript::absorb(mo, st, item) matches Ok(s) ==> {
            &&& s.events == st.events.push(Event::Absorb(item))
            &&& s.proof == st.proof
        },
        transcript::write(mo, st, item) matches Ok(s) ==> {
            &&& s.events == st.events.push(Event::Absorb(item))
            &&& s.proof == st.proof + (mo.spell)(item)
        },
        match (mo.refusal)(item) {
            None => transcript::absorb(mo, st, item) is Ok && transcript::write(mo, st, item) is Ok,
            Some(e) => {
                &&& transcript::absorb(mo, st, item) == Err::<State<C>, _>(Halt { error: e, state: st })
                &&& transcript::write(mo, st, item) == Err::<State<C>, _>(Halt { error: e, state: st })
            },
        },
{
}

/// Whatever is read stood at the front of the proof, and is absorbed. What cannot be read is not.
pub proof fn law_read_items_are_absorbed<C>(mo: Model<C>, st: State<C>)
    ensures
        transcript::read_field(mo, st) matches Ok((v, s)) ==> {
            &&& (mo.parse_field)(st.proof) == Ok::<_, (ErrorView, Seq<u8>)>((v, s.proof))
            &&& s.events == st.events.push(Event::Absorb(Item::Field(v)))
        },
        transcript::read_chunk(mo, st) matches Ok((c, s)) ==> {
            &&& (mo.parse_chunk)(st.proof) == Ok::<_, (ErrorView, Seq<u8>)>((c, s.proof))
            &&& s.events == st.events.push(Event::Absorb(Item::Chunk(c)))
        },
        (mo.parse_field)(st.proof) matches Err((e, rest)) ==> transcript::read_field(mo, st) == Err::<
            (int, State<C>),
            _,
        >(Halt { error: e, state: State { events: st.events, proof: rest } }),
        (mo.parse_chunk)(st.proof) matches Err((e, rest)) ==> transcript::read_chunk(mo, st) == Err::<
            (C, State<C>),
            _,
        >(Halt { error: e, state: State { events: st.events, proof: rest } }),
{
}

/// Challenges are drawn one after the other: each is the challenge after everything that
/// happened before it, the draws of the others among it.
pub proof fn law_challenges_are_drawn_in_turn<C>(mo: Model<C>, st: State<C>, n: nat)
    ensures
        ({
            let (cs, s) = transcript::squeeze_many(mo, st, n);
            &&& cs.len() == n
            &&& forall|j: int|
                0 <= j < n ==> #[trigger] cs[j] == (mo.challenge)(st.events + squeezes(j as nat))
            &&& s.events == st.events + squeezes(n)
            &&& s.proof == st.proof
        }),
    decreases n,
{
    let (cs, s) = transcript::squeeze_many(mo, st, n);
    if n > 0 {
        let k = (n - 1) as nat;
        law_challenges_are_drawn_in_turn(mo, st, k);
        let (before, t) = transcript::squeeze_many(mo, st, k);
        assert(s.events =~= st.events + squeezes(n));
        assert forall|j: int| 0 <= j < n implies #[trigger] cs[j] == (mo.challenge)(
            st.events + squeezes(j as nat),
        ) by {
            if j < k {
                assert(cs[j] == before[j]);
            } else {
                assert(t.events == st.events + squeezes(j as nat));
            }
        }
    } else {
        assert(st.events + squeezes(0) =~= st.events);
    }
}

/// Elements that are written are absorbed in their order.
pub proof fn law_written_fields_are_absorbed<C>(mo: Model<C>, st: State<C>, vs: Seq<int>)
    ensures
        transcript::write_fields(mo, st, vs) matches Ok(s) ==> s.events == st.events + fields(vs),
    decreases vs.len(),
{
    if vs.len() == 0 {
        assert(st.events + fields(vs) =~= st.events);
    } else {
        law_written_fields_are_absorbed(mo, st, vs.drop_last());
        if let Ok(s) = transcript::write_fields(mo, st, vs) {
            assert(s.events =~= st.events + fields(vs));
        }
    }
}

/// Elements that are read are absorbed in their order.
pub proof fn law_read_fields_are_absorbed<C>(mo: Model<C>, st: State<C>, n: nat)
    ensures
        transcript::read_fields(mo, st, n) matches Ok((vs, s)) ==> vs.len() == n && s.events
            == st.events + fields(vs),
    decreases n,
{
    if n == 0 {
        assert(st.events + fields::<C>(Seq::empty()) =~= st.events);
    } else {
        law_read_fields_are_absorbed(mo, st, (n - 1) as nat);
        if let Ok((vs, s)) = transcript::read_fields(mo, st, n) {
            assert(s.events =~= st.events + fields(vs));
        }
    }
}

/// The challenges that are drawn in the course of `more`, after `before` has happened.
pub open spec fn drawn<C>(mo: Model<C>, before: Seq<Event<C>>, more: Seq<Event<C>>) -> Seq<int>
    decreases more.len(),
{
    if more.len() == 0 {
        Seq::empty()
    } else {
        let cs = drawn(mo, before, more.drop_last());
        match more.last() {
            Event::Squeeze => cs.push((mo.challenge)(before + more.drop_last())),
            Event::Absorb(_) => cs,
        }
    }
}

/// Challenges that are drawn in the course of one thing after the other.
pub proof fn lemma_drawn_add<C>(
    mo: Model<C>,
    before: Seq<Event<C>>,
    a: Seq<Event<C>>,
    b: Seq<Event<C>>,
)
    ensures
        drawn(mo, before, a + b) == drawn(mo, before, a) + drawn(mo, before + a, b),
    decreases b.len(),
{
    if b.len() == 0 {
        assert(a + b =~= a);
        assert(drawn(mo, before, a) + Seq::<int>::empty() =~= drawn(mo, before, a));
    } else {
        let c = b.drop_last();
        lemma_drawn_add(mo, before, a, c);
        assert((a + b).drop_last() =~= a + c);
        assert(before + (a + c) =~= (before + a) + c);
        assert(drawn(mo, before, a + b) =~= drawn(mo, before, a) + drawn(mo, before + a, b));
    }
}

/// Challenges that are drawn in turn are drawn.
pub proof fn lemma_drawn_squeezes<C>(mo: Model<C>, st: State<C>, n: nat)
    ensures
        drawn(mo, st.events, squeezes(n)) == transcript::squeeze_many(mo, st, n).0,
    decreases n,
{
    if n > 0 {
        let k = (n - 1) as nat;
        lemma_drawn_squeezes(mo, st, k);
        law_challenges_are_drawn_in_turn(mo, st, k);
        assert(squeezes::<C>(n).drop_last() =~= squeezes(k));
    }
}

/// Nothing is drawn where things are only absorbed.
pub proof fn lemma_drawn_nothing<C>(mo: Model<C>, before: Seq<Event<C>>, more: Seq<Event<C>>)
    requires
        forall|i: int| 0 <= i < more.len() ==> (#[trigger] more[i]) is Absorb,
    ensures
        drawn(mo, before, more) == Seq::<int>::empty(),
    decreases more.len(),
{
    if more.len() > 0 {
        assert(more[more.len() - 1] is Absorb);
        let fewer = more.drop_last();
        assert forall|i: int| 0 <= i < fewer.len() implies (#[trigger] fewer[i]) is Absorb by {
            assert(more[i] is Absorb);
        }
        lemma_drawn_nothing(mo, before, fewer);
    }
}

/// The encodings of items, one after the other.
pub open spec fn encodings<F: PrimeField>(items: Seq<Item<[u8; 32]>>) -> Seq<u8> {
    items.map_values(|item: Item<[u8; 32]>| match item {
        Item::Field(v) => F::repr(v),
        Item::Chunk(c) => c@,
    }).flatten()
}

/// The last of several sequences, put one after the other.
pub proof fn lemma_flatten_last<T>(s: Seq<Seq<T>>)
    requires
        s.len() > 0,
    ensures
        s.flatten() == s.drop_last().flatten() + s.last(),
    decreases s.len(),
{
    if s.len() == 1 {
        assert(s.drop_first() =~= Seq::empty());
        assert(s.drop_last() =~= Seq::empty());
        assert(s.flatten() == s.first() + s.drop_first().flatten());
        assert(s.flatten() =~= s.drop_last().flatten() + s.last());
    } else {
        lemma_flatten_last(s.drop_first());
        assert(s.drop_first().drop_last() =~= s.drop_last().drop_first());
        assert(s.drop_first().last() == s.last());
        assert(s.drop_last().first() == s.first());
        assert(s.flatten() =~= s.drop_last().flatten() + s.last());
    }
}

/// A Keccak-256 challenge is the reduced digest of everything that was absorbed, in order,
/// after the digest that the last challenge before it was made of.
pub proof fn law_challenge_hashes_what_was_absorbed<F: PrimeField>(
    before: Seq<Event<[u8; 32]>>,
    items: Seq<Item<[u8; 32]>>,
)
    requires
        before.len() == 0 || before.last() is Squeeze,
    ensures
        ({
            let mo = transcript::keccak_model::<F>();
            let events = before + items.map_values(|i: Item<[u8; 32]>| Event::Absorb(i));
            let head = if before.len() == 0 {
                Seq::empty()
            } else {
                hash::keccak256_32(transcript::pending_bytes::<F>(before.drop_last()))
            };
            &&& transcript::pending_bytes::<F>(events) == head + encodings::<F>(items)
            &&& (mo.challenge)(events) == field::le_value(
                hash::keccak256_32(head + encodings::<F>(items)),
            ) % F::modulus()
        }),
    decreases items.len(),
{
    let absorbed = items.map_values(|i: Item<[u8; 32]>| Event::Absorb(i));
    let events = before + absorbed;
    let head = if before.len() == 0 {
        Seq::empty()
    } else {
        hash::keccak256_32(transcript::pending_bytes::<F>(before.drop_last()))
    };
    if items.len() == 0 {
        assert(events =~= before);
        assert(encodings::<F>(items) =~= Seq::empty());
        assert(head + encodings::<F>(items) =~= head);
    } else {
        let fewer = items.drop_last();
        law_challenge_hashes_what_was_absorbed::<F>(before, fewer);
        assert(events.drop_last() =~= before + fewer.map_values(
            |i: Item<[u8; 32]>| Event::Absorb(i),
        ));
        let f = |item: Item<[u8; 32]>| match item {
            Item::Field(v) => F::repr(v),
            Item::Chunk(c) => c@,
        };
        let spelled = items.map_values(f);
        assert(spelled.drop_last() =~= fewer.map_values(f));
        lemma_flatten_last(spelled);
        assert(head + encodings::<F>(items) =~= (head + encodings::<F>(fewer)) + spelled.last());
    }
}

/// Whether both items are field elements, reduced, or both commitment pieces.
pub open spec fn same_kind<F: PrimeField>(a: Item<[u8; 32]>, b: Item<[u8; 32]>) -> bool {
    match (a, b) {
        (Item::Field(v), Item::Field(w)) => 0 <= v < F::modulus() && 0 <= w < F::modulus(),
        (Item::Chunk(c), Item::Chunk(d)) => true,
        _ => false,
    }
}

/// Different items of the same kinds are hashed as different bytes.
pub proof fn law_different_items_are_hashed_differently<F: PrimeField>(
    a: Seq<Item<[u8; 32]>>,
    b: Seq<Item<[u8; 32]>>,
)
    requires
        a.len() == b.len(),
        forall|i: int| 0 <= i < a.len() ==> same_kind::<F>(#[trigger] a[i], b[i]),
        encodings::<F>(a) == encodings::<F>(b),
    ensures
        a == b,
    decreases a.len(),
{
    if a.len() > 0 {
        let f = |item: Item<[u8; 32]>| match item {
            Item::Field(v) => F::repr(v),
            Item::Chunk(c) => c@,
        };
        let sa = a.map_values(f);
        let sb = b.map_values(f);
        lemma_flatten_last(sa);
        lemma_flatten_last(sb);
        assert(sa.drop_last() =~= a.drop_last().map_values(f));
        assert(sb.drop_last() =~= b.drop_last().map_values(f));
        let (x, y) = (a.last(), b.last());
        assert(same_kind::<F>(a[a.len() - 1], b[a.len() - 1]));
        if let Item::Field(v) = x {
            F::repr_spells_value(v);
            F::repr_spells_value(y->Field_0);
        }
        let whole = encodings::<F>(a);
        let n = whole.len() - 32;
        assert(sa.last() =~= whole.skip(n));
        assert(sb.last() =~= whole.skip(n));
        assert(encodings::<F>(a.drop_last()) =~= whole.take(n));
        assert(encodings::<F>(b.drop_last()) =~= whole.take(n));
        if let Item::Chunk(c) = x {
            transcript::lemma_to_array(c);
            transcript::lemma_to_array(y->Chunk_0);
        }
        assert(x == y);
        assert forall|i: int| 0 <= i < a.drop_last().len() implies same_kind::<F>(
            #[trigger] a.drop_last()[i],
            b.drop_last()[i],
        ) by {
            assert(same_kind::<F>(a[i], b[i]));
        }
        law_different_items_are_hashed_differently::<F>(a.drop_last(), b.drop_last());
        assert(a =~= a.drop_last().push(x));
        assert(b =~= b.drop_last().push(y));
    } else {
        assert(a =~= b);
    }
}

/// A field element is read exactly where 32 bytes are there that spell a number below the
/// modulus. It is the number that they spell, they are its own encoding, and the rest stays.
pub proof fn law_parsed_elements_are_canonical<F: PrimeField>(bytes: Seq<u8>)
    ensures
        ({
            let r = (transcript::keccak_model::<F>().parse_field)(bytes);
            &&& r is Ok <==> bytes.len() >= 32 && field::le_value(bytes.take(32)) < F::modulus()
            &&& r matches Ok((v, rest)) ==> {
                &&& 0 <= v < F::modulus()
                &&& bytes == F::repr(v) + rest
            }
            &&& r matches Err((e, rest)) ==> if bytes.len() < 32 {
                &&& rest == bytes
                &&& e == ErrorView::Transcript(
                    std::io::ErrorKind::UnexpectedEof,
                    "Proof is too short"@,
                )
            } else {
                &&& rest == bytes.skip(32)
                &&& e == ErrorView::Transcript(
                    std::io::ErrorKind::Other,
                    "Invalid field element encoding in proof"@,
                )
            }
        }),
{
    let r = (transcript::keccak_model::<F>().parse_field)(bytes);
    if let Ok((v, rest)) = r {
        let front = bytes.take(32);
        field::lemma_le_value_bounds(front);
        F::repr_spells_value(v);
        field::lemma_le_bytes_unique(front, 32);
        field::lemma_le_bytes_unique(F::repr(v), 32);
        assert(bytes =~= front + rest);
    }
}

/// A commitment piece is read exactly where 32 bytes are there. It holds them, and the rest
/// stays.
pub proof fn law_parsed_pieces_are_the_bytes<F: PrimeField>(bytes: Seq<u8>, piece: [u8; 32])
    ensures
        ({
            let r = (transcript::keccak_model::<F>().parse_chunk)(bytes);
            &&& r is Ok <==> bytes.len() >= 32
            &&& bytes.len() >= 32 && bytes.take(32) == piece@ ==> r == Ok::<
                _,
                (ErrorView, Seq<u8>),
            >((piece, bytes.skip(32)))
            &&& r matches Err((e, rest)) ==> rest == bytes && e == ErrorView::Transcript(
                std::io::ErrorKind::UnexpectedEof,
                "Proof is too short"@,
            )
        }),
{
    transcript::lemma_to_array(piece);
}

/// Whether two different inputs have the same digest.
pub open spec fn collide(x: Seq<u8>, y: Seq<u8>) -> bool {
    x != y && hash::keccak256_32(x) == hash::keccak256_32(y)
}

/// Whether both events are draws, or both absorb an item of the same kind.
pub open spec fn same_step<F: PrimeField>(a: Event<[u8; 32]>, b: Event<[u8; 32]>) -> bool {
    match (a, b) {
        (Event::Squeeze, Event::Squeeze) => true,
        (Event::Absorb(x), Event::Absorb(y)) => same_kind::<F>(x, y),
        _ => false,
    }
}

/// What is hashed for a challenge stands for everything that happened before it: if two courses
/// of the same steps lead to the same bytes, they are the same, or there are two inputs with the
/// same digest.
pub proof fn law_challenges_depend_on_everything<F: PrimeField>(
    a: Seq<Event<[u8; 32]>>,
    b: Seq<Event<[u8; 32]>>,
)
    requires
        a.len() == b.len(),
        forall|i: int| 0 <= i < a.len() ==> same_step::<F>(#[trigger] a[i], b[i]),
        transcript::pending_bytes::<F>(a) == transcript::pending_bytes::<F>(b),
    ensures
        a == b || exists|x: Seq<u8>, y: Seq<u8>| collide(x, y),
    decreases a.len(),
{
    if a.len() == 0 {
        assert(a =~= b);
    } else {
        let n = a.len() - 1;
        assert(same_step::<F>(a[n], b[n]));
        let a0 = a.drop_last();
        let b0 = b.drop_last();
        let pa = transcript::pending_bytes::<F>(a0);
        let pb = transcript::pending_bytes::<F>(b0);
        assert forall|i: int| 0 <= i < a0.len() implies same_step::<F>(#[trigger] a0[i], b0[i]) by {
            assert(same_step::<F>(a[i], b[i]));
        }
        match (a[n], b[n]) {
            (Event::Absorb(x), Event::Absorb(y)) => {
                let ex = encodings::<F>(seq![x]);
                let ey = encodings::<F>(seq![y]);
                lemma_one_encoding::<F>(x);
                lemma_one_encoding::<F>(y);
                if let Item::Field(v) = x {
                    F::repr_spells_value(v);
                    F::repr_spells_value(y->Field_0);
                }
                let whole = transcript::pending_bytes::<F>(a);
                assert(whole == pa + ex);
                assert(whole == pb + ey);
                assert(ex.len() == 32 && ey.len() == 32);
                assert(pa =~= whole.take(whole.len() - 32));
                assert(pb =~= whole.take(whole.len() - 32));
                assert(ex =~= whole.skip(whole.len() - 32));
                assert(ey =~= whole.skip(whole.len() - 32));
                law_different_items_are_hashed_differently::<F>(seq![x], seq![y]);
                assert(seq![x][0] == seq![y][0]);
                law_challenges_depend_on_everything::<F>(a0, b0);
            },
            _ => {
                if pa == pb {
                    law_challenges_depend_on_everything::<F>(a0, b0);
                } else {
                    assert(collide(pa, pb));
                }
            },
        }
        assert(a =~= a0.push(a[n]));
        assert(b =~= b0.push(b[n]));
    }
}

/// The encoding of one item.
proof fn lemma_one_encoding<F: PrimeField>(item: Item<[u8; 32]>)
    ensures
        encodings::<F>(seq![item]) == transcript::item_bytes::<F>(item),
{
    let f = |item: Item<[u8; 32]>| match item {
        Item::Field(v) => F::repr(v),
        Item::Chunk(c) => c@,
    };
    let one = seq![item].map_values(f);
    lemma_flatten_last(one);
    assert(one.drop_last() =~= Seq::empty());
    assert(one.flatten() =~= transcript::item_bytes::<F>(item));
}

} // verus!
