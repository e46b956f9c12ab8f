//! What a call leaves on the ledger until it is sent: the transaction without
//! its nonce, under a handle derived from its content.
use crate::abi::{CircuitAbi, Disclose, DisclosureLabel, Prim};
use crate::assumed::ProofWires;
use crate::circuit::{Circuit3, Run};
use crate::fab::{law_padding_undoes_trimming, trim, trimmed, AlignmentAtom, Segment};
use crate::vector::{array_from, into_array, lemma_array_from};
use crate::wire::{
    bytes_without_end, fits_atom, fix, fixed, law_stored_pair, law_trimmed_is_the_bytes, stored, strings,
    B32, LedgerRepr, Private, Public, Uint, Vis3,
};
use core::marker::PhantomData;
use vstd::prelude::*;

verus! {

/// The key of a call: a field element derived from what is called. Two calls of
/// the same content share it.
#[derive(Debug)]
pub struct Handle<V: Vis3> {
    /// The element's little-endian bytes.
    pub bytes: [u8; 32],
    pub vis: PhantomData<V>,
}

impl<V: Vis3> Clone for Handle<V> {
    fn clone(&self) -> (r: Self)
        ensures
            r == *self,
    {
        *self
    }
}

impl<V: Vis3> Copy for Handle<V> {

}

impl<V: Vis3> Handle<V> {
    /// The element with these bytes.
    pub fn of(bytes: [u8; 32]) -> (r: Self)
        ensures
            r.bytes == bytes,
    {
        Handle { bytes, vis: PhantomData }
    }
}

/// A handle is one field slot.
impl<V: Vis3> CircuitAbi for Handle<V> {
    open spec fn slot_count() -> nat {
        1
    }

    open spec fn atom_list() -> Seq<AlignmentAtom> {
        seq![AlignmentAtom::Field]
    }

    open spec fn prim_list() -> Seq<Prim> {
        seq![Prim::Field]
    }

    fn slots() -> (r: usize) {
        1
    }

    fn push_atoms(atoms: &mut Vec<AlignmentAtom>) {
        atoms.push(AlignmentAtom::Field);
        assert(atoms@ =~= old(atoms)@ + Self::atom_list());
    }

    fn push_prims(prims: &mut Vec<Prim>) {
        prims.push(Prim::Field);
        assert(prims@ =~= old(prims)@ + Self::prim_list());
    }
}

impl Disclose for Handle<Private> {
    type Public = Handle<Public>;

    open spec fn disclosing(run: Run, label: Seq<char>) -> Run {
        run.disclose(label)
    }

    open spec fn public(self) -> Handle<Public> {
        Handle { bytes: self.bytes, vis: PhantomData }
    }

    fn disclose_as<L: DisclosureLabel>(self, c: &mut Circuit3) -> (r: Handle<Public>)
        ensures
            r.bytes@ == self.bytes@,
            final(c)@.disclosed == old(c)@.disclosed.push(L::LABEL@),
    {
        c.disclose(L::LABEL);
        Handle { bytes: self.bytes, vis: PhantomData }
    }
}

impl Disclose for B32<Private> {
    type Public = B32<Public>;

    open spec fn disclosing(run: Run, label: Seq<char>) -> Run {
        run.disclose(label)
    }

    open spec fn public(self) -> B32<Public> {
        B32 { bytes: self.bytes, vis: PhantomData }
    }

    fn disclose_as<L: DisclosureLabel>(self, c: &mut Circuit3) -> (r: B32<Public>)
        ensures
            r.bytes@ == self.bytes@,
            final(c)@.disclosed == old(c)@.disclosed.push(L::LABEL@),
    {
        c.disclose(L::LABEL);
        B32 { bytes: self.bytes, vis: PhantomData }
    }
}

impl LedgerRepr for Handle<Public> {
    open spec fn shape() -> Seq<AlignmentAtom> {
        seq![AlignmentAtom::Field]
    }

    open spec fn limbs(self) -> Seq<Seq<u8>> {
        seq![trimmed(self.bytes@)]
    }

    open spec fn of_limbs(limbs: Seq<Seq<u8>>) -> Self {
        Handle { bytes: array_from::<u8, 32>(fixed(limbs[0], 32)), vis: PhantomData }
    }

    open spec fn storable(self) -> bool {
        true
    }

    proof fn law_reads_back(value: Self) {
        law_padding_undoes_trimming(value.bytes@, 32);
        assert(fixed(trimmed(value.bytes@), 32) =~= value.bytes@);
        lemma_array_from(value.bytes);
    }

    fn atoms() -> (r: Vec<AlignmentAtom>) {
        let mut r: Vec<AlignmentAtom> = Vec::new();
        r.push(AlignmentAtom::Field);
        assert(r@ =~= Self::shape());
        r
    }

    fn push_limbs(&self, limbs: &mut Vec<Vec<u8>>) {
        limbs.push(trim(self.bytes.as_slice()));
        assert(strings(limbs@) =~= strings(old(limbs)@) + self.limbs());
    }

    fn from_limbs(limbs: &Vec<Vec<u8>>, from: usize) -> (r: Self) {
        assert(strings(limbs@).subrange(from as int, from + 1)[0] == limbs@[from as int]@);
        Handle { bytes: fix(&limbs[from]), vis: PhantomData }
    }
}

impl ProofWires for Handle<Public> {
    open spec fn wires(&self) -> Seq<Seq<u8>> {
        self.limbs()
    }

    fn push_wires(&self, out: &mut Vec<Vec<u8>>) {
        self.push_limbs(out);
    }
}

/// The address of a contract on the other chain.
#[derive(Clone, Copy, Debug)]
pub struct Address {
    pub bytes: [u8; 20],
}

impl LedgerRepr for Address {
    open spec fn shape() -> Seq<AlignmentAtom> {
        seq![AlignmentAtom::Bytes { length: 20 }]
    }

    open spec fn limbs(self) -> Seq<Seq<u8>> {
        seq![trimmed(self.bytes@)]
    }

    open spec fn of_limbs(limbs: Seq<Seq<u8>>) -> Self {
        Address { bytes: array_from::<u8, 20>(fixed(limbs[0], 20)) }
    }

    open spec fn storable(self) -> bool {
        true
    }

    proof fn law_reads_back(value: Self) {
        law_padding_undoes_trimming(value.bytes@, 20);
        assert(fixed(trimmed(value.bytes@), 20) =~= value.bytes@);
        lemma_array_from(value.bytes);
    }

    fn atoms() -> (r: Vec<AlignmentAtom>) {
        let mut r: Vec<AlignmentAtom> = Vec::new();
        r.push(AlignmentAtom::Bytes { length: 20 });
        assert(r@ =~= Self::shape());
        r
    }

    fn push_limbs(&self, limbs: &mut Vec<Vec<u8>>) {
        limbs.push(trim(self.bytes.as_slice()));
        assert(strings(limbs@) =~= strings(old(limbs)@) + self.limbs());
    }

    fn from_limbs(limbs: &Vec<Vec<u8>>, from: usize) -> (r: Self) {
        assert(strings(limbs@).subrange(from as int, from + 1)[0] == limbs@[from as int]@);
        Address { bytes: fix(&limbs[from]) }
    }
}

impl ProofWires for Address {
    open spec fn wires(&self) -> Seq<Seq<u8>> {
        self.limbs()
    }

    fn push_wires(&self, out: &mut Vec<Vec<u8>>) {
        self.push_limbs(out);
    }
}

/// A call's encoded arguments: `N` words of 32 bytes.
#[derive(Clone, Copy, Debug)]
pub struct Words<const N: usize> {
    pub words: [B32<Public>; N],
}

impl<const N: usize> LedgerRepr for Words<N> {
    open spec fn shape() -> Seq<AlignmentAtom> {
        Seq::new(N as nat, |i: int| AlignmentAtom::Bytes { length: 32 })
    }

    open spec fn limbs(self) -> Seq<Seq<u8>> {
        self.words@.map_values(|word: B32<Public>| trimmed(word.bytes@))
    }

    open spec fn of_limbs(limbs: Seq<Seq<u8>>) -> Self {
        Words {
            words: array_from::<B32<Public>, N>(
                Seq::new(N as nat, |i: int| B32::<Public>::of_limbs(seq![limbs[i]])),
            ),
        }
    }

    open spec fn storable(self) -> bool {
        true
    }

    proof fn law_reads_back(value: Self) {
        let limbs = value.limbs();
        assert(value.words@.len() == N);
        assert forall|i: int| 0 <= i < N implies B32::<Public>::of_limbs(seq![limbs[i]])
            == #[trigger] value.words@[i] by {
            B32::<Public>::law_reads_back(value.words@[i]);
            assert(value.words@[i].limbs() =~= seq![limbs[i]]);
        }
        assert forall|i: int| 0 <= i < N implies fits_atom(#[trigger] limbs[i], Self::shape()[i]) by {
            B32::<Public>::law_reads_back(value.words@[i]);
            assert(value.words@[i].limbs()[0] == limbs[i]);
        }
        assert(Seq::new(N as nat, |i: int| B32::<Public>::of_limbs(seq![limbs[i]]))
            =~= value.words@);
        lemma_array_from(value.words);
    }

    fn atoms() -> (r: Vec<AlignmentAtom>) {
        let mut r: Vec<AlignmentAtom> = Vec::new();
        while r.len() < N
            invariant
                r@.len() <= N,
                forall|i: int|
                    0 <= i < r@.len() ==> #[trigger] r@[i] == (AlignmentAtom::Bytes { length: 32 }),
            decreases N - r@.len(),
        {
            r.push(AlignmentAtom::Bytes { length: 32 });
        }
        assert(r@ =~= Self::shape());
        r
    }

    fn push_limbs(&self, limbs: &mut Vec<Vec<u8>>) {
        let mut i: usize = 0;
        while i < N
            invariant
                i <= N,
                self.words@.len() == N,
                strings(limbs@) == strings(old(limbs)@) + self.limbs().take(i as int),
            decreases N - i,
        {
            self.words[i].push_limbs(limbs);
            assert(self.limbs().take(i + 1) =~= self.limbs().take(i as int) + seq![
                trimmed(self.words@[i as int].bytes@),
            ]);
            assert(strings(limbs@) =~= strings(old(limbs)@) + self.limbs().take(i + 1));
            i += 1;
        }
        assert(self.limbs().take(N as int) =~= self.limbs());
    }

    fn from_limbs(limbs: &Vec<Vec<u8>>, from: usize) -> (r: Self) {
        let ghost own = strings(limbs@).subrange(from as int, from + N);
        let total: usize = limbs.len();
        let mut words: Vec<B32<Public>> = Vec::new();
        while words.len() < N
            invariant
                total == limbs@.len(),
                words@.len() <= N,
                from + N <= limbs@.len(),
                own == strings(limbs@).subrange(from as int, from + N),
                forall|i: int|
                    0 <= i < words@.len() ==> #[trigger] words@[i] == B32::<Public>::of_limbs(
                        seq![own[i]],
                    ),
            decreases N - words@.len(),
        {
            let i: usize = words.len();
            let word = B32::<Public>::from_limbs(limbs, from + i);
            assert(strings(limbs@).subrange(from + i, from + i + 1) =~= seq![own[i as int]]);
            words.push(word);
        }
        assert(words@ =~= Seq::new(N as nat, |i: int| B32::<Public>::of_limbs(seq![own[i]])));
        match into_array::<B32<Public>, N>(words) {
            Ok(words) => {
                proof {
                    lemma_array_from(words);
                }
                Words { words }
            },
            Err(_) => vstd::pervasive::unreached(),
        }
    }
}

/// A call without its nonce: whom it calls, under which key version it will be
/// signed, and its encoded arguments.
#[derive(Clone, Copy, Debug)]
pub struct PreRecord<const WORDS: usize> {
    pub callee: Address,
    pub key_version: Uint<8, Public>,
    pub words: Words<WORDS>,
}

impl<const WORDS: usize> LedgerRepr for PreRecord<WORDS> {
    open spec fn shape() -> Seq<AlignmentAtom> {
        <(Address, (Uint<8, Public>, Words<WORDS>)) as LedgerRepr>::shape()
    }

    open spec fn limbs(self) -> Seq<Seq<u8>> {
        (self.callee, (self.key_version, self.words)).limbs()
    }

    open spec fn of_limbs(limbs: Seq<Seq<u8>>) -> Self {
        let parts = <(Address, (Uint<8, Public>, Words<WORDS>)) as LedgerRepr>::of_limbs(limbs);
        PreRecord { callee: parts.0, key_version: parts.1.0, words: parts.1.1 }
    }

    open spec fn storable(self) -> bool {
        (self.callee, (self.key_version, self.words)).storable()
    }

    proof fn law_reads_back(value: Self) {
        <(Address, (Uint<8, Public>, Words<WORDS>)) as LedgerRepr>::law_reads_back((value.callee, (value.key_version, value.words)));
    }

    fn atoms() -> (r: Vec<AlignmentAtom>) {
        <(Address, (Uint<8, Public>, Words<WORDS>)) as LedgerRepr>::atoms()
    }

    fn push_limbs(&self, limbs: &mut Vec<Vec<u8>>) {
        self.callee.push_limbs(limbs);
        self.key_version.push_limbs(limbs);
        self.words.push_limbs(limbs);
        assert(strings(limbs@) =~= strings(old(limbs)@) + self.limbs());
    }

    fn from_limbs(limbs: &Vec<Vec<u8>>, from: usize) -> (r: Self) {
        let (callee, (key_version, words)) = <(Address, (Uint<8, Public>, Words<WORDS>)) as LedgerRepr>::from_limbs(limbs, from);
        PreRecord { callee, key_version, words }
    }
}

impl<const WORDS: usize> ProofWires for PreRecord<WORDS> {
    open spec fn wires(&self) -> Seq<Seq<u8>> {
        self.limbs()
    }

    fn push_wires(&self, out: &mut Vec<Vec<u8>>) {
        self.push_limbs(out);
    }
}

/// What is stored under a call's handle.
pub struct QueueEntry<Env, const WORDS: usize> {
    pub pre: PreRecord<WORDS>,
    /// What the settling side needs back.
    pub env: Env,
}

impl<Env: LedgerRepr, const WORDS: usize> LedgerRepr for QueueEntry<Env, WORDS> {
    open spec fn shape() -> Seq<AlignmentAtom> {
        <(PreRecord<WORDS>, Env) as LedgerRepr>::shape()
    }

    open spec fn limbs(self) -> Seq<Seq<u8>> {
        (self.pre, self.env).limbs()
    }

    open spec fn of_limbs(limbs: Seq<Seq<u8>>) -> Self {
        let parts = <(PreRecord<WORDS>, Env) as LedgerRepr>::of_limbs(limbs);
        QueueEntry { pre: parts.0, env: parts.1 }
    }

    open spec fn storable(self) -> bool {
        (self.pre, self.env).storable()
    }

    proof fn law_reads_back(value: Self) {
        <(PreRecord<WORDS>, Env) as LedgerRepr>::law_reads_back((value.pre, value.env));
    }

    fn atoms() -> (r: Vec<AlignmentAtom>) {
        <(PreRecord<WORDS>, Env) as LedgerRepr>::atoms()
    }

    fn push_limbs(&self, limbs: &mut Vec<Vec<u8>>) {
        self.pre.push_limbs(limbs);
        self.env.push_limbs(limbs);
        assert(strings(limbs@) =~= strings(old(limbs)@) + self.limbs());
    }

    fn from_limbs(limbs: &Vec<Vec<u8>>, from: usize) -> (r: Self) {
        let (pre, env) = <(PreRecord<WORDS>, Env) as LedgerRepr>::from_limbs(limbs, from);
        QueueEntry { pre, env }
    }
}

impl<Env: LedgerRepr, const WORDS: usize> ProofWires for QueueEntry<Env, WORDS> {
    open spec fn wires(&self) -> Seq<Seq<u8>> {
        self.limbs()
    }

    fn push_wires(&self, out: &mut Vec<Vec<u8>>) {
        self.push_limbs(out);
    }
}

/// An environment bound to the requester: the handle, and a commitment to the
/// requester's secret and that handle.
pub struct HandleOwned<E> {
    pub handle: Handle<Public>,
    pub owner: B32<Public>,
    pub inner: E,
}

impl<E: LedgerRepr> LedgerRepr for HandleOwned<E> {
    open spec fn shape() -> Seq<AlignmentAtom> {
        <(Handle<Public>, (B32<Public>, E)) as LedgerRepr>::shape()
    }

    open spec fn limbs(self) -> Seq<Seq<u8>> {
        (self.handle, (self.owner, self.inner)).limbs()
    }

    open spec fn of_limbs(limbs: Seq<Seq<u8>>) -> Self {
        let parts = <(Handle<Public>, (B32<Public>, E)) as LedgerRepr>::of_limbs(limbs);
        HandleOwned { handle: parts.0, owner: parts.1.0, inner: parts.1.1 }
    }

    open spec fn storable(self) -> bool {
        (self.handle, (self.owner, self.inner)).storable()
    }

    proof fn law_reads_back(value: Self) {
        <(Handle<Public>, (B32<Public>, E)) as LedgerRepr>::law_reads_back((value.handle, (value.owner, value.inner)));
    }

    fn atoms() -> (r: Vec<AlignmentAtom>) {
        <(Handle<Public>, (B32<Public>, E)) as LedgerRepr>::atoms()
    }

    fn push_limbs(&self, limbs: &mut Vec<Vec<u8>>) {
        self.handle.push_limbs(limbs);
        self.owner.push_limbs(limbs);
        self.inner.push_limbs(limbs);
        assert(strings(limbs@) =~= strings(old(limbs)@) + self.limbs());
    }

    fn from_limbs(limbs: &Vec<Vec<u8>>, from: usize) -> (r: Self) {
        let (handle, (owner, inner)) = <(Handle<Public>, (B32<Public>, E)) as LedgerRepr>::from_limbs(limbs, from);
        HandleOwned { handle, owner, inner }
    }
}

impl<E: LedgerRepr> ProofWires for HandleOwned<E> {
    open spec fn wires(&self) -> Seq<Seq<u8>> {
        self.limbs()
    }

    fn push_wires(&self, out: &mut Vec<Vec<u8>>) {
        self.push_limbs(out);
    }
}

// ---- what a record holds ------------------------------------------------------------------------

/// Disclosing bytes, or a handle, changes who may see them and not a byte of
/// them, and adds the label, and nothing else, to the run.
pub proof fn law_disclosed_bytes(
    bytes: B32<Private>,
    handle: Handle<Private>,
    run: Run,
    label: Seq<char>,
)
    ensures
        bytes.public().bytes == bytes.bytes,
        handle.public().bytes == handle.bytes,
        <B32<Private> as Disclose>::disclosing(run, label) == (Run {
            disclosed: run.disclosed.push(label),
            ..run
        }),
        <Handle<Private> as Disclose>::disclosing(run, label) == (Run {
            disclosed: run.disclosed.push(label),
            ..run
        }),
{
}

/// A handle is one slot, a field element.
pub proof fn law_slot_of_a_handle<V: Vis3>()
    ensures
        Handle::<V>::slot_count() == 1,
        Handle::<V>::atom_list() == seq![AlignmentAtom::Field],
        Handle::<V>::prim_list() == seq![Prim::Field],
{
}

/// How a handle is stored: its bytes as they are, as one field element.
pub proof fn law_stored_handle(handle: Handle<Public>)
    ensures
        stored(handle).value.len() == 1,
        bytes_without_end(stored(handle).value[0], handle.bytes@),
        stored(handle).alignment == seq![Segment::Atom(AlignmentAtom::Field)],
        handle.wires() == stored(handle).value,
{
    law_trimmed_is_the_bytes(handle.bytes@);
    assert(stored(handle).alignment =~= seq![Segment::Atom(AlignmentAtom::Field)]);
}

/// How an address is stored: its twenty bytes as they are.
pub proof fn law_stored_address(address: Address)
    ensures
        stored(address).value.len() == 1,
        bytes_without_end(stored(address).value[0], address.bytes@),
        stored(address).alignment == seq![Segment::Atom(AlignmentAtom::Bytes { length: 20 })],
        address.wires() == stored(address).value,
{
    law_trimmed_is_the_bytes(address.bytes@);
    assert(stored(address).alignment =~= seq![
        Segment::Atom(AlignmentAtom::Bytes { length: 20 }),
    ]);
}

/// How words are stored: each as it is, in order.
pub proof fn law_stored_words<const N: usize>(words: Words<N>, i: int)
    requires
        0 <= i < N,
    ensures
        stored(words).value.len() == N,
        stored(words).alignment.len() == N,
        seq![stored(words).value[i]] == stored(words.words@[i]).value,
        seq![stored(words).alignment[i]] == stored(words.words@[i]).alignment,
{
    assert(words.words@.len() == N);
    assert(seq![stored(words).value[i]] =~= stored(words.words@[i]).value);
    assert(seq![stored(words).alignment[i]] =~= stored(words.words@[i]).alignment);
}

/// How a call is stored: the callee, the key version and the words, in this
/// order.
pub proof fn law_stored_call<const WORDS: usize>(pre: PreRecord<WORDS>)
    ensures
        stored(pre).value == stored(pre.callee).value + stored(pre.key_version).value + stored(
            pre.words,
        ).value,
        stored(pre).alignment == stored(pre.callee).alignment + stored(pre.key_version).alignment
            + stored(pre.words).alignment,
        pre.wires() == stored(pre).value,
{
    law_stored_pair(pre.callee, (pre.key_version, pre.words));
    law_stored_pair(pre.key_version, pre.words);
    assert(stored(pre).value =~= stored(pre.callee).value + stored(pre.key_version).value + stored(
        pre.words,
    ).value);
    assert(stored(pre).alignment =~= stored(pre.callee).alignment + stored(
        pre.key_version,
    ).alignment + stored(pre.words).alignment);
}

/// How an entry is stored: the call, then the environment.
pub proof fn law_stored_entry<Env: LedgerRepr, const WORDS: usize>(entry: QueueEntry<Env, WORDS>)
    ensures
        stored(entry).value == stored(entry.pre).value + stored(entry.env).value,
        stored(entry).alignment == stored(entry.pre).alignment + stored(entry.env).alignment,
        entry.wires() == stored(entry).value,
{
    law_stored_pair(entry.pre, entry.env);
}

/// How an owned environment is stored: the handle, the commitment and the inner
/// environment, in this order.
pub proof fn law_stored_owned<E: LedgerRepr>(env: HandleOwned<E>)
    ensures
        stored(env).value == stored(env.handle).value + stored(env.owner).value + stored(
            env.inner,
        ).value,
        stored(env).alignment == stored(env.handle).alignment + stored(env.owner).alignment
            + stored(env.inner).alignment,
        env.wires() == stored(env).value,
{
    law_stored_pair(env.handle, (env.owner, env.inner));
    law_stored_pair(env.owner, env.inner);
    assert(stored(env).value =~= stored(env.handle).value + stored(env.owner).value + stored(
        env.inner,
    ).value);
    assert(stored(env).alignment =~= stored(env.handle).alignment + stored(env.owner).alignment
        + stored(env.inner).alignment);
}

} // verus!
