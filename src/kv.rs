//! An in-memory key-value store kept as a log of writes. A later write of a
//! key hides the earlier ones; what the store holds is the map that replaying
//! the log from the empty map gives.
use vstd::prelude::*;

verus! {

/// A write: a value put under a key, or the key deleted.
pub type Write = (Seq<u8>, Option<Seq<u8>>);

pub open spec fn apply_write(m: Map<Seq<u8>, Seq<u8>>, w: Write) -> Map<Seq<u8>, Seq<u8>> {
    match w.1 {
        Some(v) => m.insert(w.0, v),
        None => m.remove(w.0),
    }
}

/// Replays `ws` in order on `m`.
pub open spec fn apply_writes(m: Map<Seq<u8>, Seq<u8>>, ws: Seq<Write>) -> Map<Seq<u8>, Seq<u8>>
    decreases ws.len(),
{
    if ws.len() == 0 {
        m
    } else {
        apply_write(apply_writes(m, ws.drop_last()), ws.last())
    }
}

pub proof fn lemma_apply_writes_append(m: Map<Seq<u8>, Seq<u8>>, a: Seq<Write>, b: Seq<Write>)
    ensures
        apply_writes(m, a + b) == apply_writes(apply_writes(m, a), b),
    decreases b.len(),
{
    if b.len() == 0 {
        assert(a + b =~= a);
    } else {
        assert((a + b).drop_last() =~= a + b.drop_last());
        lemma_apply_writes_append(m, a, b.drop_last());
    }
}

/// Writes of other keys do not change what `k` maps to.
proof fn lemma_apply_skip(m: Map<Seq<u8>, Seq<u8>>, ws: Seq<Write>, i: int, k: Seq<u8>)
    requires
        0 <= i <= ws.len(),
        forall|j: int| i <= j < ws.len() ==> (#[trigger] ws[j]).0 != k,
    ensures
        apply_writes(m, ws).contains_key(k) == apply_writes(m, ws.subrange(0, i)).contains_key(k),
        apply_writes(m, ws).contains_key(k) ==> apply_writes(m, ws)[k] == apply_writes(
            m,
            ws.subrange(0, i),
        )[k],
    decreases ws.len(),
{
    if ws.len() == i {
        assert(ws.subrange(0, i) =~= ws);
    } else {
        let d = ws.drop_last();
        assert(d.subrange(0, i) =~= ws.subrange(0, i));
        assert(ws[ws.len() - 1].0 != k);
        lemma_apply_skip(m, d, i, k);
    }
}

/// A key that the replay holds was written at some point of the log.
proof fn lemma_key_in_log(ws: Seq<Write>, k: Seq<u8>)
    requires
        apply_writes(Map::empty(), ws).contains_key(k),
    ensures
        exists|j: int| 0 <= j < ws.len() && (#[trigger] ws[j]).0 == k,
    decreases ws.len(),
{
    if ws.len() > 0 {
        let d = ws.drop_last();
        if ws.last().0 != k {
            lemma_key_in_log(d, k);
            let j = choose|j: int| 0 <= j < d.len() && (#[trigger] d[j]).0 == k;
            assert(ws[j] == d[j]);
        } else {
            assert(ws[ws.len() - 1].0 == k);
        }
    }
}

pub open spec fn write_view(e: (Vec<u8>, Option<Vec<u8>>)) -> Write {
    (
        e.0@,
        match e.1 {
            Some(v) => Some(v@),
            None => None,
        },
    )
}

pub open spec fn has_tag(k: Seq<u8>, tag: u8) -> bool {
    k.len() > 0 && k[0] == tag
}

/// Byte-wise equality.
pub fn bytes_eq(a: &Vec<u8>, b: &Vec<u8>) -> (r: bool)
    ensures
        r == (a@ == b@),
{
    if a.len() != b.len() {
        return false;
    }
    let mut i: usize = 0;
    while i < a.len()
        invariant
            i <= a@.len(),
            a@.len() == b@.len(),
            forall|j: int| 0 <= j < i ==> a@[j] == b@[j],
        decreases a@.len() - i,
    {
        if a[i] != b[i] {
            return false;
        }
        i = i + 1;
    }
    assert(a@ =~= b@);
    true
}

pub struct Store {
    log: Vec<(Vec<u8>, Option<Vec<u8>>)>,
}

impl View for Store {
    type V = Map<Seq<u8>, Seq<u8>>;

    open spec fn view(&self) -> Map<Seq<u8>, Seq<u8>> {
        apply_writes(Map::empty(), self.writes())
    }
}

impl Store {
    /// The log, oldest write first.
    pub closed spec fn writes(&self) -> Seq<Write> {
        self.log@.map_values(|e: (Vec<u8>, Option<Vec<u8>>)| write_view(e))
    }

    pub fn new() -> (r: Store)
        ensures
            r.writes() == Seq::<Write>::empty(),
            r@ == Map::<Seq<u8>, Seq<u8>>::empty(),
    {
        let r = Store { log: Vec::new() };
        assert(r.writes() =~= Seq::<Write>::empty());
        r
    }

    /// How many writes the log holds.
    pub fn log_len(&self) -> (r: usize)
        ensures
            r == self.writes().len(),
    {
        self.log.len()
    }

    /// The value under `k`.
    pub fn get(&self, k: &Vec<u8>) -> (r: Option<Vec<u8>>)
        ensures
            match r {
                Some(v) => self@.contains_key(k@) && v@ == self@[k@],
                None => !self@.contains_key(k@),
            },
    {
        let ghost ws = self.writes();
        let mut i = self.log.len();
        while i > 0
            invariant
                i <= ws.len(),
                ws == self.writes(),
                ws.len() == self.log@.len(),
                forall|j: int| i <= j < ws.len() ==> (#[trigger] ws[j]).0 != k@,
            decreases i,
        {
            let e = &self.log[i - 1];
            assert(ws[i - 1] == write_view(self.log@[i - 1]));
            if bytes_eq(&e.0, k) {
                proof {
                    lemma_apply_skip(Map::empty(), ws, i as int, k@);
                    assert(ws.subrange(0, i - 1) =~= ws.subrange(0, i as int).drop_last());
                }
                return match &e.1 {
                    Some(v) => Some(v.clone()),
                    None => None,
                };
            }
            i = i - 1;
        }
        proof {
            lemma_apply_skip(Map::empty(), ws, 0, k@);
            assert(ws.subrange(0, 0) =~= Seq::<Write>::empty());
        }
        None
    }

    pub fn contains(&self, k: &Vec<u8>) -> (r: bool)
        ensures
            r == self@.contains_key(k@),
    {
        self.get(k).is_some()
    }

    pub fn put(&mut self, k: Vec<u8>, v: Vec<u8>)
        ensures
            final(self).writes() == old(self).writes().push((k@, Some(v@))),
            final(self)@ == old(self)@.insert(k@, v@),
    {
        let ghost e = (k, Some(v));
        self.log.push((k, Some(v)));
        proof {
            assert(self.writes() =~= old(self).writes().push((k@, Some(v@))));
            assert(self.writes().drop_last() =~= old(self).writes());
        }
    }

    pub fn delete(&mut self, k: Vec<u8>)
        ensures
            final(self).writes() == old(self).writes().push((k@, None)),
            final(self)@ == old(self)@.remove(k@),
    {
        self.log.push((k, None));
        proof {
            assert(self.writes() =~= old(self).writes().push((k@, None)));
            assert(self.writes().drop_last() =~= old(self).writes());
        }
    }

    /// A copy holding the same log.
    pub fn copy(&self) -> (r: Store)
        ensures
            r.writes() == self.writes(),
            r@ == self@,
    {
        let mut log: Vec<(Vec<u8>, Option<Vec<u8>>)> = Vec::new();
        let mut i: usize = 0;
        while i < self.log.len()
            invariant
                i <= self.log@.len(),
                log@.len() == i,
                forall|j: int| 0 <= j < i ==> write_view(#[trigger] log@[j]) == write_view(
                    self.log@[j],
                ),
            decreases self.log@.len() - i,
        {
            let e = &self.log[i];
            let v = match &e.1 {
                Some(x) => Some(x.clone()),
                None => None,
            };
            log.push((e.0.clone(), v));
            i = i + 1;
        }
        let r = Store { log };
        assert(r.writes() =~= self.writes());
        r
    }

    /// Appends to this log the writes of `other` from position `from` on.
    pub fn append_from(&mut self, other: &Store, from: usize)
        requires
            from <= other.writes().len(),
        ensures
            final(self).writes() == old(self).writes() + other.writes().skip(from as int),
            final(self)@ == apply_writes(old(self)@, other.writes().skip(from as int)),
    {
        let mut i: usize = from;
        while i < other.log.len()
            invariant
                from <= i <= other.log@.len(),
                self.writes() == old(self).writes() + other.writes().subrange(from as int, i as int),
            decreases other.log@.len() - i,
        {
            let e = &other.log[i];
            let v = match &e.1 {
                Some(x) => Some(x.clone()),
                None => None,
            };
            let ghost before = self.writes();
            self.log.push((e.0.clone(), v));
            proof {
                assert(self.writes() =~= before.push(write_view(other.log@[i as int])));
                assert(other.writes().subrange(from as int, i + 1) =~= other.writes().subrange(
                    from as int,
                    i as int,
                ).push(other.writes()[i as int]));
            }
            i = i + 1;
        }
        proof {
            assert(other.writes().subrange(from as int, other.log@.len() as int)
                =~= other.writes().skip(from as int));
            lemma_apply_writes_append(Map::empty(), old(self).writes(), other.writes().skip(from as int));
        }
    }

    /// Every key that the store holds under a first byte `tag`, each once.
    pub fn keys_with_tag(&self, tag: u8) -> (r: Vec<Vec<u8>>)
        ensures
            forall|i: int| 0 <= i < r@.len() ==> self@.contains_key(#[trigger] r@[i]@) && has_tag(r@[i]@, tag),
            forall|k: Seq<u8>| #[trigger] self@.contains_key(k) && has_tag(k, tag) ==> exists|i: int|
                0 <= i < r@.len() && r@[i]@ == k,
            forall|i: int, j: int| 0 <= i < j < r@.len() ==> r@[i]@ != r@[j]@,
    {
        let ghost ws = self.writes();
        let mut r: Vec<Vec<u8>> = Vec::new();
        let mut j: usize = 0;
        while j < self.log.len()
            invariant
                j <= self.log@.len(),
                ws == self.writes(),
                ws.len() == self.log@.len(),
                forall|i: int| 0 <= i < r@.len() ==> self@.contains_key(#[trigger] r@[i]@) && has_tag(r@[i]@, tag),
                forall|i: int, i2: int| 0 <= i < i2 < r@.len() ==> r@[i]@ != r@[i2]@,
                forall|j2: int| 0 <= j2 < j && self@.contains_key(#[trigger] ws[j2].0) && has_tag(ws[j2].0, tag)
                    ==> exists|i: int| 0 <= i < r@.len() && r@[i]@ == ws[j2].0,
            decreases self.log@.len() - j,
        {
            let k = &self.log[j].0;
            assert(ws[j as int].0 == k@);
            if k.len() > 0 && k[0] == tag && self.contains(k) {
                let mut seen = false;
                let mut i: usize = 0;
                while i < r.len()
                    invariant
                        i <= r@.len(),
                        seen ==> exists|i2: int| 0 <= i2 < r@.len() && r@[i2]@ == k@,
                        !seen ==> forall|i2: int| 0 <= i2 < i ==> r@[i2]@ != k@,
                    decreases r@.len() - i,
                {
                    if bytes_eq(&r[i], k) {
                        seen = true;
                    }
                    i = i + 1;
                }
                if !seen {
                    let ghost old_r = r@;
                    r.push(k.clone());
                    assert(r@[r@.len() - 1]@ == k@);
                    assert(forall|i2: int| 0 <= i2 < old_r.len() ==> r@[i2] == old_r[i2]);
                }
            }
            j = j + 1;
        }
        proof {
            assert forall|k: Seq<u8>| #[trigger] self@.contains_key(k) && has_tag(k, tag) implies exists|i: int|
                0 <= i < r@.len() && r@[i]@ == k by {
                lemma_key_in_log(ws, k);
                let j2 = choose|j2: int| 0 <= j2 < ws.len() && (#[trigger] ws[j2]).0 == k;
                assert(self@.contains_key(ws[j2].0));
            }
        }
        r
    }
}

} // verus!
