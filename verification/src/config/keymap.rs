//! Key bindings: the defaults, and the leader key substituted into them.
use vstd::prelude::*;
use crate::markdown::ast::opt_view;
use crate::text::{chars_of, push_all, string_from_chars};

verus! {

/// The key bindings and the leader key they may refer to as `leader`.
#[derive(Debug, Clone)]
pub struct KeymapConfig {
    pub leader: String,
    pub bindings: Vec<BindingConfig>,
}

/// One binding: a key, the action it runs, and where it applies.
#[derive(Debug, Clone)]
pub struct BindingConfig {
    pub key: String,
    pub action: String,
    pub context: Option<String>,
}

impl BindingConfig {
    pub open spec fn view(self) -> (Seq<char>, Seq<char>, Option<Seq<char>>) {
        (self.key@, self.action@, opt_view(self.context))
    }
}

/// The models of a sequence of bindings.
pub open spec fn binding_models(v: Seq<BindingConfig>) -> Seq<(Seq<char>, Seq<char>, Option<Seq<char>>)> {
    Seq::new(v.len(), |k: int| v[k].view())
}

/// `pat` occurs in `s` at `j`.
pub open spec fn occurs_at(s: Seq<char>, pat: Seq<char>, j: int) -> bool {
    0 <= j && j + pat.len() <= s.len() && s.subrange(j, j + pat.len()) == pat
}

/// First occurrence of `pat` in `s` at or after `i`.
pub open spec fn find_sub(s: Seq<char>, pat: Seq<char>, i: int) -> Option<int>
    decreases s.len() + 1 - i,
{
    if i < 0 || i + pat.len() > s.len() {
        None
    } else if occurs_at(s, pat, i) {
        Some(i)
    } else {
        find_sub(s, pat, i + 1)
    }
}

pub proof fn lemma_find_sub(s: Seq<char>, pat: Seq<char>, i: int)
    ensures
        find_sub(s, pat, i) matches Some(j) ==> i <= j && occurs_at(s, pat, j),
    decreases s.len() + 1 - i,
{
    if !(i < 0 || i + pat.len() > s.len()) && !occurs_at(s, pat, i) {
        lemma_find_sub(s, pat, i + 1);
    }
}

/// `str::replace` for a non-empty pattern: each occurrence, left to right
/// and not overlapping, replaced by `rep`.
pub open spec fn replace_all(s: Seq<char>, pat: Seq<char>, rep: Seq<char>) -> Seq<char>
    decreases s.len(),
{
    if pat.len() == 0 {
        s
    } else {
        match find_sub(s, pat, 0) {
            None => s,
            Some(j) => {
                proof {
                    lemma_find_sub(s, pat, 0);
                }
                s.take(j) + rep + replace_all(s.skip(j + pat.len()), pat, rep)
            },
        }
    }
}

/// The key with every `leader` replaced by the leader key.
fn replace_leader(key: &[char], pat: &[char], rep: &[char]) -> (r: Vec<char>)
    requires
        pat@.len() > 0,
    ensures
        r@ == replace_all(key@, pat@, rep@),
    decreases key@.len(),
{
    let n = key.len();
    let m = pat.len();
    let mut j: usize = 0;
    while j < n && m <= n - j
        invariant
            j <= n,
            n == key@.len(),
            m == pat@.len(),
            m > 0,
            find_sub(key@, pat@, 0) == find_sub(key@, pat@, j as int),
        decreases n - j,
    {
        let mut q: usize = 0;
        let mut same = true;
        while q < m
            invariant
                q <= m,
                j + m <= n,
                n == key@.len(),
                m == pat@.len(),
                same == (forall|t: int| 0 <= t < q ==> #[trigger] key@[j + t] == pat@[t]),
            decreases m - q,
        {
            if key[j + q] != pat[q] {
                same = false;
            }
            q += 1;
        }
        proof {
            if same {
                assert forall|t: int| 0 <= t < m implies key@.subrange(j as int, j + m)[t]
                    == pat@[t] by {
                    assert(key@[j + t] == pat@[t]);
                }
                assert(key@.subrange(j as int, j + m) =~= pat@);
            } else {
                let t = choose|t: int| 0 <= t < m && !(#[trigger] key@[j + t] == pat@[t]);
                assert(key@.subrange(j as int, j + m)[t] == key@[j + t]);
            }
            assert(same == occurs_at(key@, pat@, j as int));
        }
        if same {
            let mut out: Vec<char> = Vec::new();
            push_all(&mut out, vstd::slice::slice_subrange(key, 0, j));
            push_all(&mut out, rep);
            let rest = replace_leader(vstd::slice::slice_subrange(key, j + m, n), pat, rep);
            push_all(&mut out, rest.as_slice());
            proof {
                assert(key@.subrange(0, j as int) =~= key@.take(j as int));
                assert(key@.subrange(j + m, n as int) =~= key@.skip(j + m));
            }
            return out;
        }
        j += 1;
    }
    proof {
        assert(find_sub(key@, pat@, j as int) is None);
    }
    vstd::slice::slice_to_vec(key)
}

/// The default leader key.
pub fn default_leader() -> (r: String)
    ensures
        r@ == "space"@,
{
    "space".to_owned()
}

/// The default bindings, as (key, action), none tied to a context.
pub open spec fn default_binding_models() -> Seq<(Seq<char>, Seq<char>, Option<Seq<char>>)> {
    seq![
        ("ctrl-p"@, "open_command_palette"@, None),
        ("ctrl-shift-f"@, "search_notes"@, None),
        ("ctrl-n"@, "create_note"@, None),
        ("ctrl-s"@, "save_note"@, None),
        ("ctrl-b"@, "toggle_sidebar"@, None),
        ("ctrl-q"@, "quit"@, None),
    ]
}

fn binding(key: &str, action: &str) -> (r: BindingConfig)
    ensures
        r.view() == (key@, action@, None::<Seq<char>>),
{
    BindingConfig { key: key.to_owned(), action: action.to_owned(), context: None }
}

/// The default key bindings.
pub fn default_bindings() -> (r: Vec<BindingConfig>)
    ensures
        binding_models(r@) == default_binding_models(),
{
    let r = vec![
        binding("ctrl-p", "open_command_palette"),
        binding("ctrl-shift-f", "search_notes"),
        binding("ctrl-n", "create_note"),
        binding("ctrl-s", "save_note"),
        binding("ctrl-b", "toggle_sidebar"),
        binding("ctrl-q", "quit"),
    ];
    proof {
        assert(binding_models(r@) =~= default_binding_models());
    }
    r
}

impl Default for KeymapConfig {
    fn default() -> (r: Self)
        ensures
            r.leader@ == "space"@,
            binding_models(r.bindings@) == default_binding_models(),
    {
        KeymapConfig { leader: default_leader(), bindings: default_bindings() }
    }
}

impl KeymapConfig {
    /// `keymap.toml` in this application's configuration directory.
    pub fn keymap_path() -> (r: Option<String>)
        ensures
            r matches Some(p) ==> exists|d: Seq<char>| p@ == crate::config::config_file_in(d, "keymap.toml"@),
    {
        crate::config::config_file("keymap.toml")
    }

    /// The bindings with `leader` in each key replaced by the leader key.
    pub fn resolved_bindings(&self) -> (r: Vec<BindingConfig>)
        ensures
            r@.len() == self.bindings@.len(),
            forall|k: int|
                0 <= k < r@.len() ==> #[trigger] r@[k].view() == (
                    replace_all(self.bindings@[k].key@, "leader"@, self.leader@),
                    self.bindings@[k].action@,
                    opt_view(self.bindings@[k].context),
                ),
    {
        let pat = chars_of("leader");
        let rep = chars_of(self.leader.as_str());
        proof {
            reveal_strlit("leader");
        }
        let mut r: Vec<BindingConfig> = Vec::new();
        let mut k: usize = 0;
        while k < self.bindings.len()
            invariant
                k <= self.bindings@.len(),
                pat@ == "leader"@,
                pat@.len() > 0,
                rep@ == self.leader@,
                r@.len() == k,
                forall|q: int|
                    0 <= q < k ==> #[trigger] r@[q].view() == (
                        replace_all(self.bindings@[q].key@, "leader"@, self.leader@),
                        self.bindings@[q].action@,
                        opt_view(self.bindings@[q].context),
                    ),
            decreases self.bindings@.len() - k,
        {
            let b = &self.bindings[k];
            let key_chars = chars_of(b.key.as_str());
            let key = replace_leader(key_chars.as_slice(), pat.as_slice(), rep.as_slice());
            let context = match &b.context {
                Some(c) => Some(c.clone()),
                None => None,
            };
            r.push(
                BindingConfig {
                    key: string_from_chars(key.as_slice()),
                    action: b.action.clone(),
                    context,
                },
            );
            k += 1;
        }
        r
    }
}

} // verus!
