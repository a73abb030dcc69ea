use vstd::prelude::*;

verus! {

/// The index that a lookup table built from `alpha` gives `c`: its last
/// position in `alpha`, or `None` where it does not occur.
pub open spec fn char_index(alpha: Seq<char>, c: char) -> Option<int>
    decreases alpha.len(),
{
    if alpha.len() == 0 {
        None
    } else if alpha.last() == c {
        Some(alpha.len() - 1)
    } else {
        char_index(alpha.drop_last(), c)
    }
}

/// A key is usable when it is not empty and all its characters are in the
/// alphabet.
pub open spec fn key_is_valid(key: Seq<char>, alpha: Seq<char>) -> bool {
    key.len() > 0 && forall|i: int| 0 <= i < key.len() ==> alpha.contains(#[trigger] key[i])
}

/// One character of the ciphertext: a text character of the alphabet moves
/// forward by the key character's index; any other is kept.
pub open spec fn encrypt_char(alpha: Seq<char>, t: char, k: char) -> char {
    match char_index(alpha, t) {
        None => t,
        Some(ti) => alpha[(ti + char_index(alpha, k).unwrap()) % (alpha.len() as int)],
    }
}

/// One character of the plaintext: the inverse shift of `encrypt_char`.
pub open spec fn decrypt_char(alpha: Seq<char>, e: char, k: char) -> char {
    match char_index(alpha, e) {
        None => e,
        Some(ei) => alpha[(alpha.len() + ei - char_index(alpha, k).unwrap()) % (
        alpha.len() as int)],
    }
}

/// The text with character `i` paired with key character `i mod |key|`;
/// an empty key pairs with nothing.
pub open spec fn encrypted(text: Seq<char>, key: Seq<char>, alpha: Seq<char>) -> Seq<char> {
    if key.len() == 0 {
        Seq::empty()
    } else {
        Seq::new(text.len(), |i: int| encrypt_char(alpha, text[i], key[i % (key.len() as int)]))
    }
}

pub open spec fn decrypted(text: Seq<char>, key: Seq<char>, alpha: Seq<char>) -> Seq<char> {
    if key.len() == 0 {
        Seq::empty()
    } else {
        Seq::new(text.len(), |i: int| decrypt_char(alpha, text[i], key[i % (key.len() as int)]))
    }
}

proof fn lemma_char_index(alpha: Seq<char>, c: char)
    ensures
        char_index(alpha, c) matches Some(i) ==> 0 <= i < alpha.len() && alpha[i] == c,
        char_index(alpha, c) is None <==> !alpha.contains(c),
    decreases alpha.len(),
{
    if alpha.len() > 0 {
        lemma_char_index(alpha.drop_last(), c);
        if alpha.last() != c {
            if alpha.contains(c) {
                let j = choose|j: int| 0 <= j < alpha.len() && alpha[j] == c;
                assert(alpha.drop_last()[j] == c);
            }
        }
    }
}

/// Looks `c` up in the alphabet.
fn index_in(alpha: &[char], c: char) -> (r: Option<usize>)
    ensures
        r matches Some(i) ==> char_index(alpha@, c) == Some(i as int),
        r is None ==> char_index(alpha@, c) is None,
{
    let mut i: usize = alpha.len();
    assert(alpha@.take(i as int) =~= alpha@);
    while i > 0
        invariant
            i <= alpha@.len(),
            char_index(alpha@, c) == char_index(alpha@.take(i as int), c),
        decreases i,
    {
        assert(alpha@.take(i as int).drop_last() =~= alpha@.take(i - 1));
        if alpha[i - 1] == c {
            return Some(i - 1);
        }
        i = i - 1;
    }
    None
}

/// Checks that the key is not empty and uses only characters of the alphabet.
pub fn validate_key(key: &[char], alphabet: &[char]) -> (r: bool)
    ensures
        r == key_is_valid(key@, alphabet@),
{
    if key.len() == 0 {
        return false;
    }
    let mut i: usize = 0;
    while i < key.len()
        invariant
            0 <= i <= key@.len(),
            forall|j: int| 0 <= j < i ==> alphabet@.contains(#[trigger] key@[j]),
        decreases key@.len() - i,
    {
        let found = index_in(alphabet, key[i]);
        proof {
            lemma_char_index(alphabet@, key@[i as int]);
        }
        if found.is_none() {
            return false;
        }
        i = i + 1;
    }
    true
}

/// The pairs of a lookup from character to index and of one from index to
/// character.
pub fn get_mappings(alpha: &[char]) -> (r: (Vec<(char, usize)>, Vec<(usize, char)>))
    ensures
        r.0@ == Seq::new(alpha@.len(), |i: int| (alpha@[i], i as usize)),
        r.1@ == Seq::new(alpha@.len(), |i: int| (i as usize, alpha@[i])),
{
    let mut to_idx: Vec<(char, usize)> = Vec::new();
    let mut to_char: Vec<(usize, char)> = Vec::new();
    let mut i: usize = 0;
    while i < alpha.len()
        invariant
            0 <= i <= alpha@.len(),
            to_idx@ =~= Seq::new(i as nat, |j: int| (alpha@[j], j as usize)),
            to_char@ =~= Seq::new(i as nat, |j: int| (j as usize, alpha@[j])),
        decreases alpha@.len() - i,
    {
        to_idx.push((alpha[i], i));
        to_char.push((i, alpha[i]));
        i = i + 1;
    }
    (to_idx, to_char)
}

/// A key whose characters repeat without end.
pub struct LoopingKey {
    inner: Vec<char>,
}

impl LoopingKey {
    pub closed spec fn view(&self) -> Seq<char> {
        self.inner@
    }

    pub fn new(s: &[char]) -> (r: Self)
        ensures
            r.view() == s@,
    {
        let mut inner: Vec<char> = Vec::new();
        let mut i: usize = 0;
        while i < s.len()
            invariant
                0 <= i <= s@.len(),
                inner@ =~= s@.take(i as int),
            decreases s@.len() - i,
        {
            inner.push(s[i]);
            i = i + 1;
        }
        assert(s@.take(i as int) =~= s@);
        LoopingKey { inner }
    }

    pub fn into_iter(self) -> (r: LoopingKeyIterator)
        ensures
            r.wf(),
            r.key() == self.view(),
            r.position() == 0,
    {
        LoopingKeyIterator { max_idx: self.inner.len(), idx: 0, inner: self.inner }
    }
}

/// Hands out the characters of a key in turn, from the start again after
/// the last one.
pub struct LoopingKeyIterator {
    max_idx: usize,
    idx: usize,
    inner: Vec<char>,
}

impl LoopingKeyIterator {
    pub closed spec fn key(&self) -> Seq<char> {
        self.inner@
    }

    /// Index of the character that comes next.
    pub closed spec fn position(&self) -> int {
        self.idx as int
    }

    pub closed spec fn wf(&self) -> bool {
        &&& self.max_idx == self.inner@.len()
        &&& (self.idx < self.max_idx || self.idx == 0)
    }

    /// The next key character; `None` for an empty key.
    pub fn next(&mut self) -> (r: Option<char>)
        requires
            old(self).wf(),
        ensures
            final(self).wf(),
            final(self).key() == old(self).key(),
            old(self).key().len() == 0 ==> r is None && final(self).position() == 0,
            old(self).key().len() > 0 ==> r == Some(old(self).key()[old(self).position()])
                && final(self).position() == (old(self).position() + 1) % (old(
                self,
            ).key().len() as int),
    {
        if self.idx < self.inner.len() {
            let c = self.inner[self.idx];
            self.idx = (self.idx + 1) % self.max_idx;
            Some(c)
        } else {
            None
        }
    }
}

/// Encrypts `text` with Vigenère's cipher: each character of the alphabet
/// moves forward by the index of the key character paired with it, the key
/// repeating; other characters are kept. An empty key gives an empty text.
pub fn encrypt(text: &[char], key: &[char], alphabet: &[char]) -> (r: Vec<char>)
    requires
        forall|i: int| 0 <= i < key@.len() ==> alphabet@.contains(#[trigger] key@[i]),
    ensures
        r@ == encrypted(text@, key@, alphabet@),
{
    crypt(text, key, alphabet, true)
}

/// Decrypts `encrypted` with Vigenère's cipher, the inverse of `encrypt`.
pub fn decrypt(encrypted: &[char], key: &[char], alphabet: &[char]) -> (r: Vec<char>)
    requires
        forall|i: int| 0 <= i < key@.len() ==> alphabet@.contains(#[trigger] key@[i]),
    ensures
        r@ == decrypted(encrypted@, key@, alphabet@),
{
    crypt(encrypted, key, alphabet, false)
}

fn crypt(text: &[char], key: &[char], alphabet: &[char], forward: bool) -> (r: Vec<char>)
    requires
        forall|i: int| 0 <= i < key@.len() ==> alphabet@.contains(#[trigger] key@[i]),
    ensures
        forward ==> r@ == encrypted(text@, key@, alphabet@),
        !forward ==> r@ == decrypted(text@, key@, alphabet@),
{
    let mut res: Vec<char> = Vec::new();
    let mut keys = LoopingKey::new(key).into_iter();
    let alpha_len = alphabet.len();
    let ghost spec_r = if forward {
        encrypted(text@, key@, alphabet@)
    } else {
        decrypted(text@, key@, alphabet@)
    };
    let mut i: usize = 0;
    while i < text.len()
        invariant
            0 <= i <= text@.len(),
            alpha_len == alphabet@.len(),
            keys.wf(),
            keys.key() == key@,
            key@.len() > 0 ==> keys.position() == i as int % (key@.len() as int),
            key@.len() > 0 ==> res@ =~= spec_r.take(i as int),
            key@.len() == 0 ==> res@.len() == 0,
            forall|j: int| 0 <= j < key@.len() ==> alphabet@.contains(#[trigger] key@[j]),
            spec_r == (if forward {
                encrypted(text@, key@, alphabet@)
            } else {
                decrypted(text@, key@, alphabet@)
            }),
        decreases text@.len() - i,
    {
        let ghost pos = keys.position();
        let k_char = match keys.next() {
            Some(k) => k,
            None => {
                assert(spec_r =~= Seq::<char>::empty());
                return res;
            },
        };
        proof {
            lemma_char_index(alphabet@, k_char);
            lemma_char_index(alphabet@, text@[i as int]);
            assert(key@[pos] == k_char);
            assert(alphabet@.contains(key@[pos]));
            assert((i + 1) as int % (key@.len() as int) == (pos + 1) % (key@.len() as int))
                by (nonlinear_arith)
                requires
                    key@.len() > 0,
                    pos == i as int % (key@.len() as int),
            ;
        }
        let k_idx = match index_in(alphabet, k_char) {
            Some(k) => k,
            None => 0,
        };
        let t_char = text[i];
        let out = match index_in(alphabet, t_char) {
            None => t_char,
            Some(t_idx) => {
                let idx = if forward {
                    if t_idx >= alpha_len - k_idx {
                        t_idx - (alpha_len - k_idx)
                    } else {
                        t_idx + k_idx
                    }
                } else {
                    if t_idx >= k_idx {
                        t_idx - k_idx
                    } else {
                        t_idx + (alpha_len - k_idx)
                    }
                };
                proof {
                    let n = alpha_len as int;
                    if forward {
                        assert(idx as int == (t_idx + k_idx) % n) by (nonlinear_arith)
                            requires
                                0 <= t_idx < n,
                                0 <= k_idx < n,
                                idx as int == (if t_idx >= n - k_idx {
                                    t_idx - (n - k_idx)
                                } else {
                                    t_idx + k_idx
                                }),
                        ;
                    } else {
                        assert(idx as int == (n + t_idx - k_idx) % n) by (nonlinear_arith)
                            requires
                                0 <= t_idx < n,
                                0 <= k_idx < n,
                                idx as int == (if t_idx >= k_idx {
                                    t_idx - k_idx
                                } else {
                                    t_idx + (n - k_idx)
                                }),
                        ;
                    }
                }
                alphabet[idx]
            },
        };
        res.push(out);
        i = i + 1;
    }
    proof {
        if key@.len() > 0 {
            assert(spec_r.take(i as int) =~= spec_r);
        } else {
            assert(res@ =~= spec_r);
        }
    }
    res
}

} // verus!
