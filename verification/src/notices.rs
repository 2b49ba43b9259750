//! One notice per configuration error: the server shows a message when a
//! discovered configuration file fails to load, once per distinct error of
//! that file, and forgets the error when the file loads again, so a later
//! breakage is shown anew.

use vstd::prelude::*;
use crate::text::str_eq;

verus! {

/// The error last shown for each configuration file, by path.
pub struct ConfigReports {
    entries: Vec<(String, String)>,
}

/// The message recorded for path `p`: the first entry for it.
pub open spec fn recorded(entries: Seq<(Seq<char>, Seq<char>)>, p: Seq<char>) -> Option<Seq<char>>
    decreases entries.len(),
{
    if entries.len() == 0 {
        None
    } else if entries[0].0 == p {
        Some(entries[0].1)
    } else {
        recorded(entries.drop_first(), p)
    }
}

impl ConfigReports {
    /// The entries as `(path, message)` character sequences.
    pub closed spec fn entries_view(&self) -> Seq<(Seq<char>, Seq<char>)> {
        self.entries@.map_values(|e: (String, String)| (e.0@, e.1@))
    }

    /// The message recorded for path `p`.
    pub open spec fn lookup(&self, p: Seq<char>) -> Option<Seq<char>> {
        recorded(self.entries_view(), p)
    }

    /// No error recorded.
    pub fn new() -> (r: Self)
        ensures
            forall|p: Seq<char>| #[trigger] r.lookup(p) is None,
    {
        let r = ConfigReports { entries: Vec::new() };
        assert(r.entries_view() =~= Seq::<(Seq<char>, Seq<char>)>::empty());
        r
    }

    fn find(&self, path: &str) -> (r: Option<usize>)
        ensures
            r matches Some(i) ==> i < self.entries_view().len() && self.lookup(path@) == Some(
                self.entries_view()[i as int].1,
            ) && self.entries_view()[i as int].0 == path@ && forall|j: int|
                0 <= j < i ==> (#[trigger] self.entries_view()[j]).0 != path@,
            r is None ==> self.lookup(path@) is None,
    {
        let ghost ev = self.entries_view();
        assert(ev.skip(0) =~= ev);
        let mut i: usize = 0;
        while i < self.entries.len()
            invariant
                i <= ev.len(),
                ev == self.entries_view(),
                ev.len() == self.entries@.len(),
                recorded(ev, path@) == recorded(ev.skip(i as int), path@),
                forall|j: int| 0 <= j < i ==> (#[trigger] ev[j]).0 != path@,
            decreases self.entries.len() - i,
        {
            assert(ev[i as int] == (self.entries@[i as int].0@, self.entries@[i as int].1@));
            assert(ev.skip(i as int).drop_first() =~= ev.skip(i + 1));
            if str_eq(self.entries[i].0.as_str(), path) {
                return Some(i);
            }
            i = i + 1;
        }
        None
    }

    /// The configuration file at `path` failed to load with `message`:
    /// whether to show it (it differs from the error recorded for that
    /// file), and the message is recorded for the file.
    pub fn report_error(&mut self, path: &str, message: &str) -> (show: bool)
        ensures
            show == (old(self).lookup(path@) != Some(message@)),
            final(self).lookup(path@) == Some(message@),
            forall|q: Seq<char>| q != path@ ==> #[trigger] final(self).lookup(q) == old(self).lookup(q),
    {
        let ghost before = self.entries_view();
        match self.find(path) {
            Some(i) => {
                let same = str_eq(self.entries[i].1.as_str(), message);
                self.entries.set(i, (path.to_string(), message.to_string()));
                proof {
                    let after = self.entries_view();
                    assert(after =~= before.update(i as int, (path@, message@)));
                    lemma_recorded_update(before, i as int, path@, message@);
                }
                !same
            },
            None => {
                self.entries.push((path.to_string(), message.to_string()));
                proof {
                    let after = self.entries_view();
                    assert(after =~= before.push((path@, message@)));
                    assert forall|q: Seq<char>| #[trigger] recorded(after, q) == match recorded(before, q) {
                        Some(x) => Some(x),
                        None => if q == path@ {
                            Some(message@)
                        } else {
                            None
                        },
                    } by {
                        lemma_recorded_push(before, path@, message@, q);
                    }
                }
                true
            },
        }
    }

    /// The configuration file at `path` loaded: its recorded error, if
    /// any, is forgotten.
    pub fn loaded(&mut self, path: &str)
        ensures
            final(self).lookup(path@) is None,
            forall|q: Seq<char>| q != path@ ==> #[trigger] final(self).lookup(q) == old(self).lookup(q),
    {
        let ghost before = self.entries_view();
        assert(before.skip(0) =~= before);
        let mut kept: Vec<(String, String)> = Vec::new();
        let mut i: usize = 0;
        while i < self.entries.len()
            invariant
                i <= before.len(),
                before == self.entries_view(),
                before.len() == self.entries@.len(),
                forall|q: Seq<char>|
                    q != path@ ==> #[trigger] recorded(before, q) == match recorded(
                        kept@.map_values(|e: (String, String)| (e.0@, e.1@)),
                        q,
                    ) {
                        Some(m) => Some(m),
                        None => recorded(before.skip(i as int), q),
                    },
                recorded(kept@.map_values(|e: (String, String)| (e.0@, e.1@)), path@) is None,
            decreases self.entries.len() - i,
        {
            assert(before[i as int] == (self.entries@[i as int].0@, self.entries@[i as int].1@));
            assert(before.skip(i as int).drop_first() =~= before.skip(i + 1));
            let ghost kv = kept@.map_values(|e: (String, String)| (e.0@, e.1@));
            if !str_eq(self.entries[i].0.as_str(), path) {
                let e = (self.entries[i].0.clone(), self.entries[i].1.clone());
                kept.push(e);
                proof {
                    let nv = kept@.map_values(|e: (String, String)| (e.0@, e.1@));
                    assert(nv =~= kv.push(before[i as int]));
                    assert forall|q: Seq<char>| #[trigger] recorded(nv, q) == match recorded(kv, q) {
                        Some(x) => Some(x),
                        None => if q == before[i as int].0 {
                            Some(before[i as int].1)
                        } else {
                            None
                        },
                    } by {
                        lemma_recorded_push(kv, before[i as int].0, before[i as int].1, q);
                    }
                }
            }
            i = i + 1;
        }
        self.entries = kept;
        proof {
            assert(before.skip(i as int) =~= Seq::<(Seq<char>, Seq<char>)>::empty());
        }
    }
}

proof fn lemma_recorded_push(
    entries: Seq<(Seq<char>, Seq<char>)>,
    p: Seq<char>,
    m: Seq<char>,
    q: Seq<char>,
)
    ensures
        recorded(entries.push((p, m)), q) == match recorded(entries, q) {
            Some(x) => Some(x),
            None => if q == p {
                Some(m)
            } else {
                None
            },
        },
    decreases entries.len(),
{
    let e2 = entries.push((p, m));
    if entries.len() == 0 {
        assert(e2[0] == (p, m));
        assert(e2.drop_first() =~= entries);
    } else {
        assert(e2[0] == entries[0]);
        assert(e2.drop_first() =~= entries.drop_first().push((p, m)));
        lemma_recorded_push(entries.drop_first(), p, m, q);
    }
}

proof fn lemma_recorded_update(
    entries: Seq<(Seq<char>, Seq<char>)>,
    i: int,
    p: Seq<char>,
    m: Seq<char>,
)
    requires
        0 <= i < entries.len(),
        entries[i].0 == p,
        recorded(entries, p) == Some(entries[i].1),
        forall|j: int| 0 <= j < i ==> entries[j].0 != p,
    ensures
        recorded(entries.update(i, (p, m)), p) == Some(m),
        forall|q: Seq<char>|
            q != p ==> #[trigger] recorded(entries.update(i, (p, m)), q) == recorded(entries, q),
    decreases entries.len(),
{
    let u = entries.update(i, (p, m));
    if i > 0 {
        assert(u.drop_first() =~= entries.drop_first().update(i - 1, (p, m)));
        assert(u[0] == entries[0]);
        assert forall|j: int| 0 <= j < i - 1 implies entries.drop_first()[j].0 != p by {
            assert(entries.drop_first()[j] == entries[j + 1]);
        }
        lemma_recorded_update(entries.drop_first(), i - 1, p, m);
        assert forall|q: Seq<char>| q != p implies #[trigger] recorded(u, q) == recorded(entries, q) by {
            assert(recorded(entries.drop_first().update(i - 1, (p, m)), q) == recorded(
                entries.drop_first(),
                q,
            ));
            assert(recorded(u.drop_first(), q) == recorded(entries.drop_first(), q));
        }
    } else {
        assert(u.drop_first() =~= entries.drop_first());
        assert(u[0] == (p, m));
        assert forall|q: Seq<char>| q != p implies #[trigger] recorded(u, q) == recorded(entries, q) by {
            assert(recorded(u.drop_first(), q) == recorded(entries.drop_first(), q));
        }
    }
}

} // verus!
