use vstd::prelude::*;

verus! {

/// One frame of bindings and the index of its outer frame.
pub struct Frame<V> {
    bindings: Vec<(String, V)>,
    outer: Option<usize>,
}

/// The value bound to `name` in one frame's bindings: the first binding of
/// that name.
pub open spec fn frame_get<V>(b: Seq<(Seq<char>, V)>, name: Seq<char>) -> Option<V>
    decreases b.len(),
{
    if b.len() == 0 {
        None
    } else if b[0].0 == name {
        Some(b[0].1)
    } else {
        frame_get(b.drop_first(), name)
    }
}

/// Chained frames of bindings from names to values. Frames are addressed by
/// index; a frame's outer frame always has a smaller index, so every chain
/// ends. A function value keeps the index of the frame it captured, and
/// assignments through that frame stay visible to it.
pub struct Environment<V> {
    frames: Vec<Frame<V>>,
}

impl<V> Environment<V> {
    /// The bindings of frame `f`.
    pub closed spec fn bindings(&self, f: int) -> Seq<(Seq<char>, V)> {
        self.frames@[f].bindings@.map_values(|b: (String, V)| (b.0@, b.1))
    }

    /// The outer frame of frame `f`.
    pub closed spec fn outer(&self, f: int) -> Option<int> {
        match self.frames@[f].outer {
            Some(o) => Some(o as int),
            None => None,
        }
    }

    /// The number of frames.
    pub closed spec fn len(&self) -> nat {
        self.frames@.len()
    }

    pub open spec fn wf(&self) -> bool {
        forall|f: int| 0 <= f < self.len() ==> match #[trigger] self.outer(f) {
            Some(o) => 0 <= o < f,
            None => true,
        }
    }

    /// What `name` means in frame `f`: its binding there, or else its meaning
    /// in the outer frame.
    pub open spec fn lookup(&self, f: int, name: Seq<char>) -> Option<V>
        decreases f,
    {
        if !(0 <= f < self.len()) {
            None
        } else {
            match frame_get(self.bindings(f), name) {
                Some(v) => Some(v),
                None => match self.outer(f) {
                    Some(o) => if 0 <= o < f {
                        self.lookup(o, name)
                    } else {
                        None
                    },
                    None => None,
                },
            }
        }
    }

    /// An environment of one empty frame, index 0, with no outer frame.
    pub fn new() -> (r: Environment<V>)
        ensures
            r.wf(),
            r.len() == 1,
            r.bindings(0) == Seq::<(Seq<char>, V)>::empty(),
            r.outer(0) is None,
    {
        let mut frames: Vec<Frame<V>> = Vec::new();
        frames.push(Frame { bindings: Vec::new(), outer: None });
        let r = Environment { frames };
        assert(r.bindings(0) =~= Seq::<(Seq<char>, V)>::empty());
        r
    }

    /// The number of frames; valid frame indices lie below it.
    pub fn frame_count(&self) -> (r: usize)
        ensures
            r == self.len(),
    {
        self.frames.len()
    }

    /// Adds an empty frame whose outer frame is `f`, and returns its index.
    pub fn fork(&mut self, f: usize) -> (r: usize)
        requires
            old(self).wf(),
            f < old(self).len(),
        ensures
            final(self).wf(),
            r == old(self).len(),
            final(self).len() == old(self).len() + 1,
            final(self).bindings(r as int) == Seq::<(Seq<char>, V)>::empty(),
            final(self).outer(r as int) == Some(f as int),
            forall|g: int| 0 <= g < old(self).len() ==> {
                &&& #[trigger] final(self).bindings(g) == old(self).bindings(g)
                &&& final(self).outer(g) == old(self).outer(g)
            },
    {
        let r = self.frames.len();
        self.frames.push(Frame { bindings: Vec::new(), outer: Some(f) });
        assert(self.bindings(r as int) =~= Seq::<(Seq<char>, V)>::empty());
        assert forall|g: int| 0 <= g < old(self).len() implies {
            &&& #[trigger] self.bindings(g) == old(self).bindings(g)
            &&& self.outer(g) == old(self).outer(g)
        } by {
            assert(self.frames@[g] == old(self).frames@[g]);
        }
        assert forall|g: int| 0 <= g < self.len() implies match #[trigger] self.outer(g) {
            Some(o) => 0 <= o < g,
            None => true,
        } by {
            if g < old(self).len() {
                assert(self.frames@[g] == old(self).frames@[g]);
                assert(old(self).outer(g) == self.outer(g));
            }
        }
        r
    }

    /// The value that `name` has in frame `f`, searched outward along the
    /// chain of outer frames.
    pub fn get(&self, f: usize, name: &String) -> (r: Option<&V>)
        requires
            self.wf(),
            f < self.len(),
        ensures
            match r {
                Some(v) => self.lookup(f as int, name@) == Some(*v),
                None => self.lookup(f as int, name@) is None,
            },
    {
        let mut g = f;
        loop
            invariant
                self.wf(),
                g < self.len(),
                self.lookup(f as int, name@) == self.lookup(g as int, name@),
            decreases g,
        {
            let bindings = &self.frames[g].bindings;
            let ghost b = self.bindings(g as int);
            let mut i: usize = 0;
            assert(b.subrange(0, b.len() as int) =~= b);
            while i < bindings.len()
                invariant
                    g < self.len(),
                    bindings == self.frames@[g as int].bindings,
                    self.lookup(f as int, name@) == self.lookup(g as int, name@),
                    b == self.bindings(g as int),
                    b == bindings@.map_values(|x: (String, V)| (x.0@, x.1)),
                    i <= bindings@.len(),
                    frame_get(b, name@) == frame_get(b.subrange(i as int, b.len() as int), name@),
                decreases bindings@.len() - i,
            {
                assert(b.subrange(i as int, b.len() as int).drop_first() =~= b.subrange(i + 1, b.len() as int));
                if bindings[i].0 == *name {
                    assert(b.subrange(i as int, b.len() as int)[0] == b[i as int]);
                    assert(frame_get(b, name@) == Some(b[i as int].1));
                    assert(b[i as int].1 == bindings@[i as int].1);
                    assert(self.lookup(g as int, name@) == Some(b[i as int].1));
                    return Some(&bindings[i].1);
                }
                i = i + 1;
            }
            assert(b.subrange(i as int, b.len() as int) =~= Seq::<(Seq<char>, V)>::empty());
            proof {
                assert(0 <= g < self.len());
                let _ = self.outer(g as int);
            }
            match self.frames[g].outer {
                Some(o) => {
                    g = o;
                },
                None => {
                    return None;
                },
            }
        }
    }

    /// The index of the first binding of `name` in frame `f`.
    fn find_binding(&self, f: usize, name: &String) -> (r: Option<usize>)
        requires
            f < self.len(),
        ensures
            match r {
                Some(i) => i < self.bindings(f as int).len() && self.bindings(f as int)[i as int].0 == name@
                    && forall|k: int| 0 <= k < i ==> self.bindings(f as int)[k].0 != name@,
                None => forall|k: int| 0 <= k < self.bindings(f as int).len() ==> self.bindings(f as int)[k].0 != name@,
            },
    {
        let bindings = &self.frames[f].bindings;
        let ghost b = self.bindings(f as int);
        let mut i: usize = 0;
        while i < bindings.len()
            invariant
                b == self.bindings(f as int),
                b == bindings@.map_values(|x: (String, V)| (x.0@, x.1)),
                i <= bindings@.len(),
                forall|k: int| 0 <= k < i ==> b[k].0 != name@,
            decreases bindings@.len() - i,
        {
            if bindings[i].0 == *name {
                return Some(i);
            }
            i = i + 1;
        }
        None
    }

    /// Binds `name` to `value` in frame `f` itself, replacing a binding of
    /// the same name there; no other frame changes.
    pub fn set(&mut self, f: usize, name: String, value: V)
        requires
            old(self).wf(),
            f < old(self).len(),
        ensures
            final(self).wf(),
            final(self).len() == old(self).len(),
            forall|y: Seq<char>| #[trigger] frame_get(final(self).bindings(f as int), y) == if y == name@ {
                Some(value)
            } else {
                frame_get(old(self).bindings(f as int), y)
            },
            forall|g: int| 0 <= g < old(self).len() ==> #[trigger] final(self).outer(g) == old(self).outer(g),
            forall|g: int| 0 <= g < old(self).len() && g != f ==> #[trigger] final(self).bindings(g) == old(self).bindings(g),
    {
        let ghost b = self.bindings(f as int);
        let ghost key = name@;
        match self.find_binding(f, &name) {
            Some(i) => {
                self.frames[f].bindings[i].1 = value;
                proof {
                    assert(self.bindings(f as int) =~= b.update(i as int, (key, value)));
                    assert forall|y: Seq<char>| #[trigger] frame_get(self.bindings(f as int), y) == if y == key {
                        Some(value)
                    } else {
                        frame_get(b, y)
                    } by {
                        lemma_frame_get_update(b, i as int, key, value, y);
                    }
                }
            },
            None => {
                self.frames[f].bindings.push((name, value));
                proof {
                    assert(self.bindings(f as int) =~= b.push((key, value)));
                    assert forall|y: Seq<char>| #[trigger] frame_get(self.bindings(f as int), y) == if y == key {
                        Some(value)
                    } else {
                        frame_get(b, y)
                    } by {
                        lemma_frame_get_push(b, key, value, y);
                    }
                }
            },
        }
        proof {
            assert forall|g: int| 0 <= g < old(self).len() && g != f implies #[trigger] self.bindings(g) == old(self).bindings(g) by {
                assert(self.frames@[g] == old(self).frames@[g]);
            }
            assert forall|g: int| 0 <= g < old(self).len() implies #[trigger] self.outer(g) == old(self).outer(g) by {
                if g != f {
                    assert(self.frames@[g] == old(self).frames@[g]);
                }
            }
            assert forall|g: int| 0 <= g < self.len() implies match #[trigger] self.outer(g) {
                Some(o) => 0 <= o < g,
                None => true,
            } by {
                assert(self.outer(g) == old(self).outer(g));
            }
        }
    }
}

} // verus!

verus! {

proof fn lemma_frame_get_update<V>(b: Seq<(Seq<char>, V)>, i: int, key: Seq<char>, value: V, y: Seq<char>)
    requires
        0 <= i < b.len(),
        b[i].0 == key,
        forall|k: int| 0 <= k < i ==> b[k].0 != key,
    ensures
        frame_get(b.update(i, (key, value)), y) == if y == key {
            Some(value)
        } else {
            frame_get(b, y)
        },
    decreases b.len(),
{
    let u = b.update(i, (key, value));
    if i > 0 {
        assert(u[0] == b[0]);
        assert(b[0].0 != key);
        assert(u.drop_first() =~= b.drop_first().update(i - 1, (key, value)));
        lemma_frame_get_update(b.drop_first(), i - 1, key, value, y);
    } else {
        assert(u[0] == (key, value));
        assert(u.drop_first() =~= b.drop_first());
    }
}

proof fn lemma_frame_get_push<V>(b: Seq<(Seq<char>, V)>, key: Seq<char>, value: V, y: Seq<char>)
    requires
        forall|k: int| 0 <= k < b.len() ==> b[k].0 != key,
    ensures
        frame_get(b.push((key, value)), y) == if y == key {
            Some(value)
        } else {
            frame_get(b, y)
        },
    decreases b.len(),
{
    let p = b.push((key, value));
    if b.len() > 0 {
        assert(p[0] == b[0]);
        assert(b[0].0 != key);
        assert(p.drop_first() =~= b.drop_first().push((key, value)));
        lemma_frame_get_push(b.drop_first(), key, value, y);
    } else {
        assert(p[0] == (key, value));
        assert(p.drop_first() =~= Seq::<(Seq<char>, V)>::empty());
        assert(frame_get(p.drop_first(), y) is None);
    }
}

} // verus!
