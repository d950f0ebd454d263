//! The alias table: maps user-facing unit names to canonical graph names.

use vstd::prelude::*;

verus! {

/// An optional alias table. Each entry pairs a canonical unit name with the
/// aliases that stand for it.
#[derive(Debug, Clone)]
pub struct Config {
    pub aliases: Option<Vec<(String, Vec<String>)>>,
}

/// The alias table as sequences of character sequences.
pub open spec fn alias_entries_view(
    entries: Seq<(String, Vec<String>)>,
) -> Seq<(Seq<char>, Seq<Seq<char>>)> {
    entries.map_values(|e: (String, Vec<String>)| (e.0@, e.1@.map_values(|s: String| s@)))
}

/// The canonical name the alias table resolves `aliased` to: the key of the
/// first entry whose key equals `aliased` or whose aliases contain it.
pub open spec fn spec_full_unit(
    aliases: Seq<(Seq<char>, Seq<Seq<char>>)>,
    aliased: Seq<char>,
) -> Option<Seq<char>>
    decreases aliases.len(),
{
    if aliases.len() == 0 {
        None
    } else {
        let entry = aliases[0];
        if entry.0 == aliased || entry.1.contains(aliased) {
            Some(entry.0)
        } else {
            spec_full_unit(aliases.skip(1), aliased)
        }
    }
}

impl Config {
    /// A view of the alias table as sequences of character sequences.
    pub open spec fn aliases_view(&self) -> Option<Seq<(Seq<char>, Seq<Seq<char>>)>> {
        match self.aliases {
            None => None,
            Some(entries) => Some(alias_entries_view(entries@)),
        }
    }

    /// The invariant the alias table carries from being a map: no canonical
    /// key occurs twice, so the key an alias resolves to is unambiguous.
    pub open spec fn wf(&self) -> bool {
        match self.aliases_view() {
            None => true,
            Some(entries) => forall|p: int, q: int|
                0 <= p < q < entries.len() ==> (#[trigger] entries[p]).0 != (#[trigger] entries[q]).0,
        }
    }

    /// Resolves an aliased unit name to its canonical form: `None` when there
    /// is no alias table or no entry mentions the name, otherwise the key of
    /// the first entry whose key or alias set matches.
    pub fn get_full_unit(self, aliased: &str) -> (r: Option<String>)
        requires
            self.wf(),
        ensures
            match self.aliases_view() {
                None => r is None,
                Some(entries) => match spec_full_unit(entries, aliased@) {
                    None => r is None,
                    Some(key) => r matches Some(k) && k@ == key,
                },
            },
    {
        let entries = match &self.aliases {
            None => {
                return None;
            },
            Some(entries) => entries,
        };
        let needle = String::from_str(aliased);
        let ghost entries_view = alias_entries_view(entries@);
        let n = entries.len();
        let mut i: usize = 0;
        proof {
            assert(entries_view.skip(0) =~= entries_view);
        }
        while i < n
            invariant
                i <= n,
                n == entries.len(),
                self.aliases matches Some(es) && es@ == entries@,
                needle@ == aliased@,
                entries_view == alias_entries_view(entries@),
                spec_full_unit(entries_view, aliased@) == spec_full_unit(
                    entries_view.skip(i as int),
                    aliased@,
                ),
            decreases n - i,
        {
            let entry = &entries[i];
            let mut matched: bool = entry.0 == needle;
            let m = entry.1.len();
            let mut j: usize = 0;
            while j < m
                invariant
                    j <= m,
                    i < n,
                    n == entries.len(),
                    *entry == entries@[i as int],
                    m == entry.1@.len(),
                    needle@ == aliased@,
                    entries_view == alias_entries_view(entries@),
                    matched <==> (entries_view[i as int].0 == aliased@ || exists|k: int|
                        0 <= k < j && entries_view[i as int].1[k] == aliased@),
                decreases m - j,
            {
                if entry.1[j] == needle {
                    matched = true;
                    proof {
                        assert(entries_view[i as int].1[j as int] == aliased@);
                    }
                }
                j += 1;
            }
            if matched {
                proof {
                    let tail = entries_view.skip(i as int);
                    assert(tail[0] == entries_view[i as int]);
                    assert(entries_view[i as int].0 == aliased@ || entries_view[i as int].1.contains(
                        aliased@,
                    ));
                    assert(tail.len() == n - i);
                    assert(spec_full_unit(tail, aliased@) == Some(tail[0].0));
                }
                return Some(entry.0.clone());
            }
            proof {
                assert(!(entries_view[i as int].1.contains(aliased@))) by {
                    if entries_view[i as int].1.contains(aliased@) {
                        let k = choose|k: int|
                            0 <= k < entries_view[i as int].1.len() && entries_view[i as int].1[k]
                                == aliased@;
                        assert(0 <= k < m && entries_view[i as int].1[k] == aliased@);
                    }
                }
                assert(entries_view.skip(i as int)[0] == entries_view[i as int]);
                assert(entries_view.skip(i as int).skip(1) =~= entries_view.skip(i + 1));
            }
            i += 1;
        }
        proof {
            assert(entries_view.skip(n as int).len() == 0);
        }
        None
    }
}

} // verus!
