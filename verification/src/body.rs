//! Collecting and reading bodies, and picking the WebSocket connections of a
//! route.

use crate::net::{ConnKey, SocketAddress};
use vstd::prelude::*;
use vstd::utf8::{decode_utf8, valid_utf8};

verus! {

/// Reads bytes as UTF-8 text.
///
/// Calls `String::from_utf8`; the contract claims that it succeeds exactly on
/// valid UTF-8, giving the text that the bytes encode.
#[verifier::external_body]
fn utf8_string(bytes: Vec<u8>) -> (r: Option<String>)
    ensures
        match r {
            Some(s) => valid_utf8(bytes@) && s@ == decode_utf8(bytes@),
            None => !valid_utf8(bytes@),
        },
{
    String::from_utf8(bytes).ok()
}

/// The text of a body: its bytes read as UTF-8, or the empty text when they
/// are not valid UTF-8.
pub fn text_from_body(bytes: Vec<u8>) -> (r: String)
    ensures
        r@ == if valid_utf8(bytes@) {
            decode_utf8(bytes@)
        } else {
            Seq::empty()
        },
{
    match utf8_string(bytes) {
        Some(s) => s,
        None => String::new(),
    }
}

/// What one poll of a body stream gave.
pub enum ChunkPoll {
    /// A chunk of data.
    Data(Vec<u8>),
    /// A frame that carries no data (trailers).
    NotData,
    /// Reading failed.
    Error,
    /// The stream ended.
    End,
    /// Nothing yet.
    Pending,
}

/// Collects the chunks of a body stream into one byte vector.
pub struct BodyCollector {
    all_data: Vec<u8>,
}

impl BodyCollector {
    /// The bytes collected so far.
    pub closed spec fn collected(&self) -> Seq<u8> {
        self.all_data@
    }

    /// Nothing collected yet.
    pub fn new() -> (r: Self)
        ensures
            r.collected() == Seq::<u8>::empty(),
    {
        BodyCollector { all_data: Vec::new() }
    }

    /// Takes in what one poll gave: a data chunk is added to the bytes
    /// collected and the collection goes on (`None`); a pending poll changes
    /// nothing; the end of the stream, a read error or a frame without data
    /// ends it, and the bytes collected so far are handed out (`Some`).
    pub fn on_poll(&mut self, polled: ChunkPoll) -> (r: Option<Vec<u8>>)
        ensures
            match polled {
                ChunkPoll::Data(d) => r is None && final(self).collected() == old(self).collected()
                    + d@,
                ChunkPoll::Pending => r is None && final(self).collected() == old(self).collected(),
                _ => r matches Some(all) && all@ == old(self).collected() && final(self).collected()
                    == Seq::<u8>::empty(),
            },
    {
        match polled {
            ChunkPoll::Data(d) => {
                self.all_data.extend_from_slice(d.as_slice());
                None
            },
            ChunkPoll::Pending => None,
            _ => {
                let mut all = Vec::new();
                std::mem::swap(&mut all, &mut self.all_data);
                Some(all)
            },
        }
    }
}

/// Whether a connection key belongs to the connections picked: those of route
/// `path`, other than the one at `exclude` when it is given.
pub open spec fn picked(k: (Seq<char>, SocketAddress), path: Seq<char>, exclude: Option<SocketAddress>) -> bool {
    k.0 == path && match exclude {
        Some(a) => k.1 != a,
        None => true,
    }
}

/// The positions, in order, of the picked keys among `keys`.
pub open spec fn picked_positions(
    keys: Seq<(Seq<char>, SocketAddress)>,
    path: Seq<char>,
    exclude: Option<SocketAddress>,
) -> Seq<int>
    decreases keys.len(),
{
    if keys.len() == 0 {
        Seq::empty()
    } else {
        picked_positions(keys.drop_last(), path, exclude) + if picked(keys.last(), path, exclude) {
            seq![keys.len() - 1]
        } else {
            Seq::empty()
        }
    }
}

/// The connections picked are exactly those of route `path` whose whole
/// address (IP and port) differs from the excluded one, in the order of the
/// keys: a connection from the same IP on another port is picked.
pub proof fn lemma_picked_positions(
    keys: Seq<(Seq<char>, SocketAddress)>,
    path: Seq<char>,
    exclude: Option<SocketAddress>,
)
    ensures
        forall|j: int|
            #![trigger picked_positions(keys, path, exclude).contains(j)]
            picked_positions(keys, path, exclude).contains(j) <==> (0 <= j < keys.len() && keys[j].0
                == path && exclude != Some(keys[j].1)),
        forall|a: int, b: int|
            0 <= a < b < picked_positions(keys, path, exclude).len() ==> #[trigger] picked_positions(
                keys,
                path,
                exclude,
            )[a] < #[trigger] picked_positions(keys, path, exclude)[b],
        forall|a: int|
            0 <= a < picked_positions(keys, path, exclude).len() ==> 0 <= #[trigger] picked_positions(
                keys,
                path,
                exclude,
            )[a] < keys.len(),
    decreases keys.len(),
{
    if keys.len() > 0 {
        let init = keys.drop_last();
        let n = keys.len() - 1;
        lemma_picked_positions(init, path, exclude);
        let pi = picked_positions(init, path, exclude);
        let pp = picked_positions(keys, path, exclude);
        let tail = if picked(keys.last(), path, exclude) {
            seq![n]
        } else {
            Seq::<int>::empty()
        };
        assert(pp == pi + tail);
        assert(picked(keys[n], path, exclude) <==> (keys[n].0 == path && exclude != Some(keys[n].1)));
        assert forall|j: int| #![trigger pp.contains(j)]
            pp.contains(j) <==> (0 <= j < keys.len() && keys[j].0 == path && exclude != Some(keys[j].1)) by {
            if pp.contains(j) {
                let x = choose|x: int| 0 <= x < pp.len() && pp[x] == j;
                if x < pi.len() {
                    assert(pi[x] == pp[x]);
                    assert(pi.contains(j));
                    assert(init[j] == keys[j]);
                } else {
                    assert(pp[x] == n);
                }
            }
            if 0 <= j < keys.len() && keys[j].0 == path && exclude != Some(keys[j].1) {
                if j < n {
                    assert(init[j] == keys[j]);
                    assert(pi.contains(j));
                    let x = choose|x: int| 0 <= x < pi.len() && pi[x] == j;
                    assert(pp[x] == j);
                } else {
                    assert(pp[pi.len() as int] == n);
                }
            }
        }
        assert forall|a: int| 0 <= a < pp.len() implies 0 <= #[trigger] pp[a] < keys.len() by {
            if a < pi.len() {
                assert(pp[a] == pi[a]);
            }
        }
        assert forall|a: int, b: int| 0 <= a < b < pp.len() implies #[trigger] pp[a] < #[trigger] pp[b] by {
            if b < pi.len() {
                assert(pp[a] == pi[a] && pp[b] == pi[b]);
            } else {
                assert(pp[a] == pi[a]);
                assert(pp[b] == n);
            }
        }
    }
}

/// Picks, among the keys of open WebSocket connections, those of route `path`
/// other than the connection at `exclude` (when given), and gives their
/// positions in order.
pub fn pick_conns(keys: &Vec<ConnKey>, path: &str, exclude: Option<SocketAddress>) -> (r: Vec<usize>)
    ensures
        r@.len() == picked_positions(keys@.map_values(|k: ConnKey| k@), path@, exclude).len(),
        forall|i: int|
            0 <= i < r@.len() ==> #[trigger] r@[i] as int == picked_positions(
                keys@.map_values(|k: ConnKey| k@),
                path@,
                exclude,
            )[i],
{
    let ghost kv = keys@.map_values(|k: ConnKey| k@);
    let mut out: Vec<usize> = Vec::new();
    let mut i: usize = 0;
    while i < keys.len()
        invariant
            i <= keys@.len(),
            kv == keys@.map_values(|k: ConnKey| k@),
            out@.len() == picked_positions(kv.take(i as int), path@, exclude).len(),
            forall|j: int|
                0 <= j < out@.len() ==> #[trigger] out@[j] as int == picked_positions(
                    kv.take(i as int),
                    path@,
                    exclude,
                )[j],
        decreases keys@.len() - i,
    {
        proof {
            assert(kv.take(i + 1).drop_last() =~= kv.take(i as int));
            assert(kv.take(i + 1).last() == kv[i as int]);
        }
        let same_path = String::eq(&keys[i].path, &path.to_owned());
        let keep = same_path && match exclude {
            Some(a) => keys[i].addr != a,
            None => true,
        };
        if keep {
            out.push(i);
        }
        i = i + 1;
    }
    proof {
        assert(kv.take(i as int) =~= kv);
    }
    out
}

} // verus!
