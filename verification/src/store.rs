//! The encrypted store: an in-memory map from names to values, saved as the
//! encryption of its serialized text and loaded back by the inverse pipeline.
//!
//! The store itself never touches a file: `save_bytes` hands the surrounding
//! program the ciphertext to write, and `load_bytes` takes the bytes the
//! program read. The serialized plaintext must fit `MAX_PLAINTEXT_LEN`
//! bytes; a larger map fails `save_bytes` with `EnvError::SizeLimit` rather
//! than being truncated.

use vstd::prelude::*;
use vstd::string::StrSliceExecFns;
use vstd::string::StringExecFns;
use vstd::utf8::encode_utf8;
use crate::crypto::{decrypt_bytes, enc_of, encrypt_bytes};
use crate::errors::EnvError;
use crate::json::{entries_view, json_of, parse_json_chars, write_json};
use crate::text::{bytes_to_string, push_char, str_chars};

verus! {

broadcast use vstd::utf8::encode_utf8_valid_utf8, vstd::utf8::encode_utf8_decode_utf8;

/// The most serialized plaintext bytes a map may take to be saved.
pub const MAX_PLAINTEXT_LEN: usize = 1024;

/// Entries are well formed when no key repeats.
pub open spec fn wf_entries(es: Seq<(Seq<char>, Seq<char>)>) -> bool {
    forall|i: int, j: int| 0 <= i < j < es.len() ==> es[i].0 != es[j].0
}

/// The map a sequence of entries stands for; a later entry with the same key
/// overwrites an earlier one.
pub open spec fn map_of(es: Seq<(Seq<char>, Seq<char>)>) -> Map<Seq<char>, Seq<char>>
    decreases es.len(),
{
    if es.len() == 0 {
        Map::empty()
    } else {
        map_of(es.drop_last()).insert(es.last().0, es.last().1)
    }
}

pub proof fn lemma_map_of_contains(es: Seq<(Seq<char>, Seq<char>)>, k: Seq<char>)
    ensures
        map_of(es).contains_key(k) <==> exists|i: int| 0 <= i < es.len() && es[i].0 == k,
    decreases es.len(),
{
    if es.len() == 0 {
    } else {
        lemma_map_of_contains(es.drop_last(), k);
        if es.last().0 == k {
            assert(es[es.len() - 1].0 == k);
        } else {
            if map_of(es).contains_key(k) {
                let i = choose|i: int| 0 <= i < es.drop_last().len() && es.drop_last()[i].0 == k;
                assert(es[i].0 == k);
            }
            if exists|i: int| 0 <= i < es.len() && es[i].0 == k {
                let i = choose|i: int| 0 <= i < es.len() && es[i].0 == k;
                assert(i < es.len() - 1);
                assert(es.drop_last()[i].0 == k);
            }
        }
    }
}

pub proof fn lemma_map_of_index(es: Seq<(Seq<char>, Seq<char>)>, i: int)
    requires
        wf_entries(es),
        0 <= i < es.len(),
    ensures
        map_of(es).contains_key(es[i].0),
        map_of(es)[es[i].0] == es[i].1,
    decreases es.len(),
{
    if i == es.len() - 1 {
    } else {
        assert(wf_entries(es.drop_last()));
        assert(es.drop_last()[i] == es[i]);
        lemma_map_of_index(es.drop_last(), i);
        assert(es[i].0 != es.last().0);
    }
}

proof fn lemma_map_of_update(es: Seq<(Seq<char>, Seq<char>)>, i: int, v: Seq<char>)
    requires
        wf_entries(es),
        0 <= i < es.len(),
    ensures
        map_of(es.update(i, (es[i].0, v))) == map_of(es).insert(es[i].0, v),
    decreases es.len(),
{
    let k = es[i].0;
    let up = es.update(i, (k, v));
    if i == es.len() - 1 {
        assert(up.drop_last() =~= es.drop_last());
        assert(up.last() == (k, v));
        assert(map_of(up) =~= map_of(es).insert(k, v));
    } else {
        let el = es.last();
        assert(wf_entries(es.drop_last()));
        assert(es.drop_last()[i] == es[i]);
        lemma_map_of_update(es.drop_last(), i, v);
        assert(up.drop_last() =~= es.drop_last().update(i, (k, v)));
        assert(up.last() == el);
        assert(k != el.0);
        assert(map_of(up) =~= map_of(es).insert(k, v));
    }
}

proof fn lemma_map_of_push(es: Seq<(Seq<char>, Seq<char>)>, e: (Seq<char>, Seq<char>))
    ensures
        map_of(es.push(e)) == map_of(es).insert(e.0, e.1),
{
    assert(es.push(e).drop_last() =~= es);
    assert(es.push(e).last() == e);
}

/// The in-memory variable map, held as a vector of pairs with unique keys.
pub struct State {
    pairs: Vec<(String, String)>,
}

impl State {
    /// The entry sequence the store holds, in its storage order.
    pub closed spec fn entries(&self) -> Seq<(Seq<char>, Seq<char>)> {
        entries_view(self.pairs@)
    }

    /// The map the store holds.
    pub open spec fn as_map(&self) -> Map<Seq<char>, Seq<char>> {
        map_of(self.entries())
    }

    /// The store's invariant: no key repeats.
    pub open spec fn wf(&self) -> bool {
        wf_entries(self.entries())
    }

    /// A fresh, empty store.
    pub fn new() -> (r: State)
        ensures
            r.wf(),
            r.entries() == Seq::<(Seq<char>, Seq<char>)>::empty(),
            r.as_map() == Map::<Seq<char>, Seq<char>>::empty(),
    {
        let r = State { pairs: Vec::new() };
        proof {
            assert(r.entries() =~= Seq::<(Seq<char>, Seq<char>)>::empty());
        }
        r
    }

    /// How many variables the store holds.
    pub fn len(&self) -> (r: usize)
        ensures
            r == self.entries().len(),
    {
        self.pairs.len()
    }

    /// Insert or overwrite one variable.
    pub fn set_env(&mut self, name: &String, value: &String)
        requires
            old(self).wf(),
        ensures
            final(self).wf(),
            final(self).as_map() == old(self).as_map().insert(name@, value@),
            !old(self).as_map().contains_key(name@) ==> final(self).entries() == old(
                self,
            ).entries().push((name@, value@)),
            old(self).as_map().contains_key(name@) ==> final(self).entries().len() == old(
                self,
            ).entries().len() && (forall|j: int|
                0 <= j < final(self).entries().len() ==> final(self).entries()[j].0 == old(
                    self,
                ).entries()[j].0),
    {
        let n = self.pairs.len();
        let mut i: usize = 0;
        while i < n
            invariant
                i <= n,
                n == self.pairs@.len(),
                self.pairs@ == old(self).pairs@,
                wf_entries(entries_view(self.pairs@)),
                forall|j: int| 0 <= j < i ==> entries_view(self.pairs@)[j].0 != name@,
            decreases n - i,
        {
            if self.pairs[i].0 == *name {
                let ghost oldent = entries_view(self.pairs@);
                self.pairs[i] = (name.clone(), value.clone());
                proof {
                    assert(entries_view(self.pairs@) =~= oldent.update(i as int, (name@, value@)));
                    assert(oldent[i as int].0 == name@);
                    assert((name@, value@) == (oldent[i as int].0, value@));
                    lemma_map_of_update(oldent, i as int, value@);
                    lemma_map_of_contains(oldent, name@);
                    assert(wf_entries(entries_view(self.pairs@)));
                }
                return ;
            }
            i = i + 1;
        }
        let ghost oldent = entries_view(self.pairs@);
        self.pairs.push((name.clone(), value.clone()));
        proof {
            assert(entries_view(self.pairs@) =~= oldent.push((name@, value@)));
            lemma_map_of_push(oldent, (name@, value@));
            lemma_map_of_contains(oldent, name@);
            assert(wf_entries(entries_view(self.pairs@)));
        }
    }

    /// Look a variable up by name.
    pub fn get(&self, name: &String) -> (r: Option<&String>)
        requires
            self.wf(),
        ensures
            r matches Some(v) ==> self.as_map().contains_key(name@) && v@ == self.as_map().index(
                name@,
            ),
            r is None ==> !self.as_map().contains_key(name@),
    {
        let n = self.pairs.len();
        let mut i: usize = 0;
        while i < n
            invariant
                i <= n,
                n == self.pairs@.len(),
                self.wf(),
                forall|j: int| 0 <= j < i ==> entries_view(self.pairs@)[j].0 != name@,
            decreases n - i,
        {
            if self.pairs[i].0 == *name {
                proof {
                    lemma_map_of_index(self.entries(), i as int);
                }
                return Some(&self.pairs[i].1);
            }
            i = i + 1;
        }
        proof {
            lemma_map_of_contains(self.entries(), name@);
        }
        None
    }

    /// One `NAME=VALUE` line for each entry, in storage order.
    pub fn export_lines(&self) -> (r: Vec<String>)
        ensures
            r@.len() == self.entries().len(),
            forall|i: int|
                0 <= i < r@.len() ==> r@[i]@ == self.entries()[i].0 + seq!['=']
                    + self.entries()[i].1,
    {
        let mut out: Vec<String> = Vec::new();
        let n = self.pairs.len();
        let mut i: usize = 0;
        while i < n
            invariant
                i <= n,
                n == self.pairs@.len(),
                out@.len() == i,
                forall|j: int|
                    0 <= j < i ==> out@[j]@ == entries_view(self.pairs@)[j].0 + seq!['=']
                        + entries_view(self.pairs@)[j].1,
            decreases n - i,
        {
            let p = &self.pairs[i];
            let mut line = p.0.clone();
            push_char(&mut line, '=');
            line.append(p.1.as_str());
            proof {
                assert(line@ =~= entries_view(self.pairs@)[i as int].0 + seq!['=']
                    + entries_view(self.pairs@)[i as int].1);
            }
            out.push(line);
            i = i + 1;
        }
        out
    }

    /// Serialize and encrypt the store: the bytes to write to the file.
    ///
    /// Succeeds exactly when the serialized plaintext fits the size bound;
    /// a larger map gets `EnvError::SizeLimit` and nothing is truncated.
    pub fn save_bytes(&self) -> (r: Result<Vec<u8>, EnvError>)
        ensures
            encode_utf8(json_of(self.entries())).len() <= MAX_PLAINTEXT_LEN ==> (r
                matches Ok(c) && c@ == enc_of(encode_utf8(json_of(self.entries()))) && c@.len()
                == crate::crypto::padded_len(encode_utf8(json_of(self.entries())).len())),
            encode_utf8(json_of(self.entries())).len() > MAX_PLAINTEXT_LEN ==> r == Err::<
                Vec<u8>,
                EnvError,
            >(EnvError::SizeLimit),
    {
        let js = write_json(&self.pairs);
        let bytes = js.as_str().as_bytes_vec();
        if bytes.len() > MAX_PLAINTEXT_LEN {
            return Err(EnvError::SizeLimit);
        }
        Ok(encrypt_bytes(&bytes))
    }

    /// Decrypt and parse the bytes read from the file into a fresh store.
    ///
    /// On the encryption of a serialized entry sequence this succeeds and
    /// returns exactly that content; a failed decryption reports
    /// `EnvError::Crypto`, and decrypted bytes that are not the store's text
    /// form report `EnvError::Format`.
    pub fn load_bytes(data: &Vec<u8>) -> (r: Result<State, EnvError>)
        ensures
            r matches Ok(st) ==> st.wf(),
            r is Err ==> r == Err::<State, EnvError>(EnvError::Crypto) || r == Err::<
                State,
                EnvError,
            >(EnvError::Format),
            data@.len() % 16 != 0 || data@.len() == 0 ==> r == Err::<State, EnvError>(
                EnvError::Crypto,
            ),
            forall|e: Seq<(Seq<char>, Seq<char>)>|
                data@ == #[trigger] enc_of(encode_utf8(json_of(e))) ==> r is Ok
                    && r->Ok_0.as_map() == map_of(e) && (wf_entries(e) ==> r->Ok_0.entries()
                    == e),
    {
        let plain = match decrypt_bytes(data) {
            Some(p) => p,
            None => {
                return Err(EnvError::Crypto);
            },
        };
        let ghost plainv = plain@;
        let text = match bytes_to_string(plain) {
            Some(s) => s,
            None => {
                return Err(EnvError::Format);
            },
        };
        let cs = str_chars(text.as_str());
        let parsed = match parse_json_chars(&cs) {
            Some(ps) => ps,
            None => {
                proof {
                    assert forall|e: Seq<(Seq<char>, Seq<char>)>|
                        data@ == #[trigger] enc_of(encode_utf8(json_of(e))) implies false by {
                        assert(plainv == encode_utf8(json_of(e)));
                        assert(encode_utf8(text@) == plainv);
                        vstd::utf8::encode_utf8_decode_utf8(text@);
                        vstd::utf8::encode_utf8_decode_utf8(json_of(e));
                        assert(text@ == json_of(e));
                        crate::json::lemma_parse_json_of(e);
                    }
                }
                return Err(EnvError::Format);
            },
        };
        let ghost pe = entries_view(parsed@);
        let mut st = State::new();
        let m = parsed.len();
        let mut i: usize = 0;
        proof {
            assert(pe.take(0) =~= Seq::<(Seq<char>, Seq<char>)>::empty());
            assert(st.as_map() == map_of(pe.take(0)));
        }
        while i < m
            invariant
                i <= m,
                m == parsed@.len(),
                pe == entries_view(parsed@),
                st.wf(),
                st.as_map() == map_of(pe.take(i as int)),
                wf_entries(pe) ==> st.entries() == pe.take(i as int),
            decreases m - i,
        {
            let p = &parsed[i];
            proof {
                assert(pe.take(i + 1 as int).drop_last() =~= pe.take(i as int));
                assert(pe.take(i + 1 as int).last() == pe[i as int]);
                if wf_entries(pe) {
                    lemma_map_of_contains(pe.take(i as int), pe[i as int].0);
                }
            }
            st.set_env(&p.0, &p.1);
            proof {
                if wf_entries(pe) {
                    assert(st.entries() =~= pe.take(i + 1 as int));
                }
            }
            i = i + 1;
        }
        proof {
            assert(pe.take(m as int) =~= pe);
        }
        let res = Ok(st);
        proof {
            assert forall|e: Seq<(Seq<char>, Seq<char>)>|
                data@ == #[trigger] enc_of(encode_utf8(json_of(e))) implies res is Ok
                && res->Ok_0.as_map() == map_of(e) && (wf_entries(e) ==> res->Ok_0.entries()
                == e) by {
                assert(plainv == encode_utf8(json_of(e)));
                assert(encode_utf8(text@) == plainv);
                vstd::utf8::encode_utf8_decode_utf8(text@);
                vstd::utf8::encode_utf8_decode_utf8(json_of(e));
                assert(text@ == json_of(e));
                crate::json::lemma_parse_json_of(e);
                assert(pe == e);
            }
        }
        res
    }

    /// Round trip: a store whose serialized form fits the size bound
    /// survives save followed by load with its contents intact.
    pub fn save_then_load(&self) -> (r: Result<State, EnvError>)
        requires
            self.wf(),
        ensures
            encode_utf8(json_of(self.entries())).len() <= MAX_PLAINTEXT_LEN ==> (r
                matches Ok(st) && st.entries() == self.entries() && st.as_map()
                == self.as_map()),
    {
        match self.save_bytes() {
            Err(e) => Err(e),
            Ok(c) => State::load_bytes(&c),
        }
    }
}

/// Exporting is repeatable: once a store is saved, reading the saved bytes
/// and exporting them twice prints the same lines both times — one
/// `NAME=VALUE` line per saved entry, in the saved order, both times.
pub fn export_twice(data: &Vec<u8>) -> (r: Result<(Vec<String>, Vec<String>), EnvError>)
    ensures
        forall|e: Seq<(Seq<char>, Seq<char>)>|
            wf_entries(e) && data@ == #[trigger] enc_of(encode_utf8(json_of(e))) ==> r is Ok
                && r->Ok_0.0@.len() == e.len() && r->Ok_0.1@.len() == e.len() && (forall|i: int|
                0 <= i < e.len() ==> r->Ok_0.0@[i]@ == e[i].0 + seq!['='] + e[i].1
                    && r->Ok_0.1@[i]@ == e[i].0 + seq!['='] + e[i].1),
{
    let st1 = match State::load_bytes(data) {
        Ok(s) => s,
        Err(er) => {
            return Err(er);
        },
    };
    let st2 = match State::load_bytes(data) {
        Ok(s) => s,
        Err(er) => {
            return Err(er);
        },
    };
    let l1 = st1.export_lines();
    let l2 = st2.export_lines();
    let r = Ok((l1, l2));
    proof {
        assert forall|e: Seq<(Seq<char>, Seq<char>)>|
            wf_entries(e) && data@ == #[trigger] enc_of(encode_utf8(json_of(e))) implies r is Ok
            && r->Ok_0.0@.len() == e.len() && r->Ok_0.1@.len() == e.len() && (forall|i: int|
            0 <= i < e.len() ==> r->Ok_0.0@[i]@ == e[i].0 + seq!['='] + e[i].1
                && r->Ok_0.1@[i]@ == e[i].0 + seq!['='] + e[i].1) by {
            assert(st1.entries() == e);
            assert(st2.entries() == e);
        }
    }
    r
}

} // verus!
