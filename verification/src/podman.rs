//! The container and image model: plain data deserialized outside the crate
//! from the container tool's output, plus the verified computation of the
//! argument lists and annotation strings the tool is driven with.

use vstd::prelude::*;
use crate::plan::BuildRecord;
use crate::text::{chars_of, split_all, split_char, string_from_chars};

verus! {

/// The separator between items stored in one annotation value.
pub open spec fn sep() -> char {
    '\u{1f}'
}

/// A managed container, as the container tool reports it.
#[derive(Debug)]
pub struct Container {
    /// The container's identifier.
    pub id: String,
    /// The image the container was created from.
    pub image: String,
    /// The container's lifecycle state.
    pub state: String,
    /// The container's annotations, as key-value pairs.
    pub annotations: Vec<(String, String)>,
}

/// A managed image, as the container tool reports it.
#[derive(Debug)]
pub struct Image {
    /// The image's identifier.
    pub id: String,
    /// The image's annotations, as key-value pairs.
    pub annotations: Vec<(String, String)>,
}

/// The value of the first pair carrying `key`, if any.
pub open spec fn lookup(anns: Seq<(Seq<char>, Seq<char>)>, key: Seq<char>) -> Option<Seq<char>>
    decreases anns.len(),
{
    if anns.len() == 0 {
        None
    } else if anns[0].0 == key {
        Some(anns[0].1)
    } else {
        lookup(anns.skip(1), key)
    }
}

/// First-match lookup in an annotation list.
fn lookup_exec(anns: &Vec<(String, String)>, key: &Vec<char>) -> (r: Option<String>)
    ensures
        r.deep_view() == lookup(anns.deep_view(), key@),
{
    let mut i: usize = 0;
    proof {
        assert(anns.deep_view().skip(0) =~= anns.deep_view());
    }
    while i < anns.len()
        invariant
            i <= anns@.len(),
            anns.deep_view().len() == anns@.len(),
            lookup(anns.deep_view(), key@) == lookup(anns.deep_view().skip(i as int), key@),
        decreases anns@.len() - i,
    {
        let kc = chars_of(anns[i].0.as_str());
        let ghost rest = anns.deep_view().skip(i as int);
        proof {
            assert(rest[0] == anns.deep_view()[i as int]);
            assert(anns.deep_view()[i as int] == (anns@[i as int].0@, anns@[i as int].1@));
            assert(rest.skip(1) =~= anns.deep_view().skip(i + 1));
        }
        if crate::text::chars_eq(&kc, key) {
            let v = anns[i].1.clone();
            return Some(v);
        }
        i = i + 1;
    }
    proof {
        assert(anns.deep_view().skip(i as int) =~= Seq::<(Seq<char>, Seq<char>)>::empty());
    }
    None
}

impl Container {
    /// Whether the container is in the running state.
    pub fn started(&self) -> (r: bool)
        ensures
            r == (self.state@ == "running"@),
    {
        let target = chars_of("running");
        let own = chars_of(self.state.as_str());
        crate::text::chars_eq(&own, &target)
    }

    /// The value of the annotation under `key`, if one exists.
    pub fn annotation(&self, key: &str) -> (r: Option<String>)
        ensures
            r.deep_view() == lookup(self.annotations.deep_view(), key@),
    {
        let kc = chars_of(key);
        lookup_exec(&self.annotations, &kc)
    }

    /// Whether this crate's manager owns the container.
    pub fn is_managed(&self) -> (r: bool)
        ensures
            r == (lookup(self.annotations.deep_view(), "manager"@) == Some("box"@)),
    {
        match self.annotation("manager") {
            None => false,
            Some(v) => {
                let vc = chars_of(v.as_str());
                let target = chars_of("box");
                crate::text::chars_eq(&vc, &target)
            },
        }
    }
}

/// The annotation keys whose values are forwarded when a container is
/// created from an image. The first key injects bare arguments; every other
/// key becomes a repeated `--key value` flag.
pub open spec fn key_list() -> Seq<Seq<char>> {
    seq![
        "args"@,
        "cap-add"@,
        "cap-drop"@,
        "cpus"@,
        "memory"@,
        "ulimit"@,
        "device"@,
        "userns"@,
        "security-opt"@,
        "mount"@,
        "restart"@,
        "secret"@,
    ]
}

/// The forwarded annotation keys, as strings.
pub fn annotation_keys() -> (r: Vec<String>)
    ensures
        r.deep_view() == key_list(),
{
    let mut r: Vec<String> = Vec::new();
    r.push("args".to_owned());
    r.push("cap-add".to_owned());
    r.push("cap-drop".to_owned());
    r.push("cpus".to_owned());
    r.push("memory".to_owned());
    r.push("ulimit".to_owned());
    r.push("device".to_owned());
    r.push("userns".to_owned());
    r.push("security-opt".to_owned());
    r.push("mount".to_owned());
    r.push("restart".to_owned());
    r.push("secret".to_owned());
    proof {
        assert(r.deep_view() =~~= key_list());
    }
    r
}

/// A flag repeated before each of the pieces, in order.
pub open spec fn pair_list(flag: Seq<char>, ps: Seq<Seq<char>>) -> Seq<Seq<char>>
    decreases ps.len(),
{
    if ps.len() == 0 {
        Seq::empty()
    } else {
        seq![flag, ps[0]] + pair_list(flag, ps.skip(1))
    }
}

/// The arguments one forwarded annotation contributes: nothing when absent;
/// the separated pieces themselves for the bare-argument key; a repeated
/// flag with each piece for every other key.
pub open spec fn key_args(anns: Seq<(Seq<char>, Seq<char>)>, key: Seq<char>) -> Seq<Seq<char>> {
    match lookup(anns, "box."@ + key) {
        None => Seq::empty(),
        Some(v) => if key == "args"@ {
            split_char(v, sep())
        } else {
            pair_list("--"@ + key, split_char(v, sep()))
        },
    }
}

/// The arguments all forwarded annotations contribute, key by key.
pub open spec fn ann_expansion(
    anns: Seq<(Seq<char>, Seq<char>)>,
    keys: Seq<Seq<char>>,
) -> Seq<Seq<char>>
    decreases keys.len(),
{
    if keys.len() == 0 {
        Seq::empty()
    } else {
        key_args(anns, keys[0]) + ann_expansion(anns, keys.skip(1))
    }
}

/// The full command-line argument list for creating a container from an
/// image with the given annotations: the run verb; the naming arguments
/// (detached and named, or ephemeral); the forwarded annotation arguments
/// with an optional replace flag; the ownership and identity annotations;
/// the image name; and any ephemeral command arguments.
pub open spec fn spec_instantiate(
    anns: Seq<(Seq<char>, Seq<char>)>,
    replace: bool,
    eph: Seq<Seq<char>>,
) -> Seq<Seq<char>> {
    let name = match lookup(anns, "box.name"@) {
        Some(n) => n,
        None => Seq::empty(),
    };
    let hash = match lookup(anns, "box.hash"@) {
        Some(h) => h,
        None => Seq::empty(),
    };
    let fwd = ann_expansion(anns, key_list());
    let fwd = if replace {
        fwd.push("--replace"@)
    } else {
        fwd
    };
    let naming = if eph.len() > 0 {
        seq!["--rm"@, "-it"@, "--hostname"@, name]
    } else {
        seq!["-d"@, "--name"@, name, "--hostname"@, name]
    };
    seq!["run"@] + naming + fwd + seq![
        "--annotation"@,
        "manager=box"@,
        "--annotation"@,
        "box.name="@ + name,
        "--annotation"@,
        "box.hash="@ + hash,
        name,
    ] + eph
}

/// The pieces of an annotation value, as strings.
fn split_value(v: &str) -> (r: Vec<String>)
    ensures
        r.deep_view() == split_char(v@, sep()),
{
    let vc = chars_of(v);
    let parts = split_all(&vc, '\u{1f}');
    let mut r: Vec<String> = Vec::new();
    let mut i: usize = 0;
    proof {
        assert(r.deep_view() =~~= parts.deep_view().subrange(0, 0));
    }
    while i < parts.len()
        invariant
            i <= parts@.len(),
            parts.deep_view() == split_char(v@, sep()),
            r.deep_view() == parts.deep_view().subrange(0, i as int),
        decreases parts@.len() - i,
    {
        let ghost old_r = r.deep_view();
        let s = string_from_chars(&parts[i]);
        proof {
            assert(parts[i as int]@ =~= parts[i as int].deep_view());
            assert(parts[i as int].deep_view() == parts.deep_view()[i as int]);
        }
        r.push(s);
        i = i + 1;
        proof {
            assert(r.deep_view() =~~= old_r.push(parts.deep_view()[i - 1]));
            assert(r.deep_view() =~~= parts.deep_view().subrange(0, i as int));
        }
    }
    proof {
        assert(parts.deep_view().subrange(0, i as int) =~= parts.deep_view());
    }
    r
}

/// A repeated flag paired with each piece.
fn pair_args(flag: &String, ps: &Vec<String>) -> (r: Vec<String>)
    ensures
        r.deep_view() == pair_list(flag@, ps.deep_view()),
{
    let mut r: Vec<String> = Vec::new();
    let mut i: usize = 0;
    proof {
        assert(ps.deep_view().skip(0) =~= ps.deep_view());
        assert(r.deep_view() + pair_list(flag@, ps.deep_view()) =~~= pair_list(
            flag@,
            ps.deep_view(),
        ));
    }
    while i < ps.len()
        invariant
            i <= ps@.len(),
            ps.deep_view().len() == ps@.len(),
            pair_list(flag@, ps.deep_view()) == r.deep_view() + pair_list(
                flag@,
                ps.deep_view().skip(i as int),
            ),
        decreases ps@.len() - i,
    {
        let ghost old_r = r.deep_view();
        let ghost rest = ps.deep_view().skip(i as int);
        proof {
            assert(rest[0] == ps.deep_view()[i as int]);
            assert(rest.skip(1) =~= ps.deep_view().skip(i + 1));
            assert(pair_list(flag@, rest) == seq![flag@, rest[0]] + pair_list(
                flag@,
                rest.skip(1),
            ));
        }
        r.push(flag.clone());
        r.push(ps[i].clone());
        i = i + 1;
        proof {
            assert(ps@[i - 1]@ == ps.deep_view()[i - 1]);
            assert(r.deep_view() =~~= old_r + seq![flag@, ps.deep_view()[i - 1]]);
            assert(r.deep_view() + pair_list(flag@, ps.deep_view().skip(i as int)) =~~= pair_list(
                flag@,
                ps.deep_view(),
            ));
        }
    }
    proof {
        assert(ps.deep_view().skip(i as int) =~= Seq::<Seq<char>>::empty());
        assert(r.deep_view() =~~= pair_list(flag@, ps.deep_view()));
    }
    r
}

impl Image {
    /// The value of the annotation under `key`, if one exists.
    pub fn annotation(&self, key: &str) -> (r: Option<String>)
        ensures
            r.deep_view() == lookup(self.annotations.deep_view(), key@),
    {
        let kc = chars_of(key);
        lookup_exec(&self.annotations, &kc)
    }

    /// Whether this crate's manager owns the image.
    pub fn is_managed(&self) -> (r: bool)
        ensures
            r == (lookup(self.annotations.deep_view(), "manager"@) == Some("box"@)),
    {
        match self.annotation("manager") {
            None => false,
            Some(v) => {
                let vc = chars_of(v.as_str());
                let target = chars_of("box");
                crate::text::chars_eq(&vc, &target)
            },
        }
    }

    /// The argument list for instantiating a container from this image with
    /// no command override.
    pub fn instantiate(&self, replace: bool) -> (r: Vec<String>)
        requires
            lookup(self.annotations.deep_view(), "box.name"@) is Some,
            lookup(self.annotations.deep_view(), "box.hash"@) is Some,
        ensures
            r.deep_view() == spec_instantiate(
                self.annotations.deep_view(),
                replace,
                Seq::empty(),
            ),
    {
        let eph: Vec<String> = Vec::new();
        let r = self.instantiate_ext(replace, &eph);
        proof {
            assert(eph.deep_view() =~~= Seq::<Seq<char>>::empty());
        }
        r
    }

    /// The argument list for instantiating a container from this image,
    /// optionally replacing an existing one and optionally overriding the
    /// command for an ephemeral run.
    #[verifier::rlimit(60)]
    pub fn instantiate_ext(&self, replace: bool, ephemeral_args: &Vec<String>) -> (r: Vec<
        String,
    >)
        requires
            lookup(self.annotations.deep_view(), "box.name"@) is Some,
            lookup(self.annotations.deep_view(), "box.hash"@) is Some,
        ensures
            r.deep_view() == spec_instantiate(
                self.annotations.deep_view(),
                replace,
                ephemeral_args.deep_view(),
            ),
    {
        let ghost anns = self.annotations.deep_view();
        let name = match self.annotation("box.name") {
            Some(n) => n,
            None => {
                proof {
                    assert(false);
                }
                String::new()
            },
        };
        let hash = match self.annotation("box.hash") {
            Some(h) => h,
            None => {
                proof {
                    assert(false);
                }
                String::new()
            },
        };
        let keys = annotation_keys();
        let mut fwd: Vec<String> = Vec::new();
        let mut i: usize = 0;
        proof {
            assert(key_list().skip(0) =~= key_list());
            assert(fwd.deep_view() + ann_expansion(anns, key_list()) =~~= ann_expansion(
                anns,
                key_list(),
            ));
        }
        while i < keys.len()
            invariant
                i <= keys@.len(),
                keys.deep_view() == key_list(),
                keys@.len() == key_list().len(),
                anns == self.annotations.deep_view(),
                ann_expansion(anns, key_list()) == fwd.deep_view() + ann_expansion(
                    anns,
                    key_list().skip(i as int),
                ),
            decreases keys@.len() - i,
        {
            let ghost rest = key_list().skip(i as int);
            proof {
                assert(rest[0] == key_list()[i as int]);
                assert(rest.skip(1) =~= key_list().skip(i + 1));
                assert(ann_expansion(anns, rest) == key_args(anns, rest[0]) + ann_expansion(
                    anns,
                    rest.skip(1),
                ));
                assert(keys@[i as int]@ == key_list()[i as int]);
            }
            let boxed = String::from_str("box.").concat(keys[i].as_str());
            proof {
                assert(boxed@ == "box."@ + key_list()[i as int]);
            }
            match self.annotation(boxed.as_str()) {
                None => {
                    proof {
                        assert(key_args(anns, key_list()[i as int]) =~~= Seq::<Seq<char>>::empty());
                        assert(fwd.deep_view() + ann_expansion(anns, key_list().skip(i + 1))
                            =~~= ann_expansion(anns, key_list()));
                    }
                },
                Some(v) => {
                    let pieces = split_value(v.as_str());
                    let akey = chars_of(keys[i].as_str());
                    let args_lit = chars_of("args");
                    let ghost old_fwd = fwd.deep_view();
                    if crate::text::chars_eq(&akey, &args_lit) {
                        let mut j: usize = 0;
                        while j < pieces.len()
                            invariant
                                j <= pieces@.len(),
                                pieces.deep_view().len() == pieces@.len(),
                                fwd.deep_view() == old_fwd + pieces.deep_view().subrange(
                                    0,
                                    j as int,
                                ),
                            decreases pieces@.len() - j,
                        {
                            let ghost before = fwd.deep_view();
                            let p = pieces[j].clone();
                            proof {
                                assert(pieces@[j as int]@ == pieces.deep_view()[j as int]);
                            }
                            fwd.push(p);
                            j = j + 1;
                            proof {
                                assert(fwd.deep_view() =~~= before.push(
                                    pieces.deep_view()[j - 1],
                                ));
                                assert(fwd.deep_view() =~~= old_fwd
                                    + pieces.deep_view().subrange(0, j as int));
                            }
                        }
                        proof {
                            assert(pieces.deep_view().subrange(0, pieces.deep_view().len() as int)
                                =~= pieces.deep_view());
                            assert(key_args(anns, key_list()[i as int]) == pieces.deep_view());
                            assert(fwd.deep_view() =~~= old_fwd + key_args(
                                anns,
                                key_list()[i as int],
                            ));
                            assert(fwd.deep_view() + ann_expansion(anns, key_list().skip(i + 1))
                                =~~= ann_expansion(anns, key_list()));
                        }
                    } else {
                        let flag = String::from_str("--").concat(keys[i].as_str());
                        proof {
                            assert(flag@ == "--"@ + key_list()[i as int]);
                        }
                        let pargs = pair_args(&flag, &pieces);
                        let mut j: usize = 0;
                        while j < pargs.len()
                            invariant
                                j <= pargs@.len(),
                                pargs.deep_view().len() == pargs@.len(),
                                fwd.deep_view() == old_fwd + pargs.deep_view().subrange(
                                    0,
                                    j as int,
                                ),
                            decreases pargs@.len() - j,
                        {
                            let ghost before = fwd.deep_view();
                            let p = pargs[j].clone();
                            proof {
                                assert(pargs@[j as int]@ == pargs.deep_view()[j as int]);
                            }
                            fwd.push(p);
                            j = j + 1;
                            proof {
                                assert(fwd.deep_view() =~~= before.push(
                                    pargs.deep_view()[j - 1],
                                ));
                                assert(fwd.deep_view() =~~= old_fwd + pargs.deep_view().subrange(
                                    0,
                                    j as int,
                                ));
                            }
                        }
                        proof {
                            assert(pargs.deep_view().subrange(0, pargs.deep_view().len() as int)
                                =~= pargs.deep_view());
                            assert(key_args(anns, key_list()[i as int]) == pargs.deep_view());
                            assert(fwd.deep_view() =~~= old_fwd + key_args(
                                anns,
                                key_list()[i as int],
                            ));
                            assert(fwd.deep_view() + ann_expansion(anns, key_list().skip(i + 1))
                                =~~= ann_expansion(anns, key_list()));
                        }
                    }
                },
            }
            i = i + 1;
        }
        proof {
            assert(key_list().skip(i as int) =~= Seq::<Seq<char>>::empty());
            assert(fwd.deep_view() =~~= ann_expansion(anns, key_list()));
        }
        if replace {
            let ghost before = fwd.deep_view();
            fwd.push(String::from_str("--replace"));
            proof {
                assert(fwd.deep_view() =~~= before.push("--replace"@));
            }
        }
        let ghost fwd_final = fwd.deep_view();
        let mut r: Vec<String> = Vec::new();
        r.push(String::from_str("run"));
        if ephemeral_args.len() > 0 {
            r.push(String::from_str("--rm"));
            r.push(String::from_str("-it"));
            r.push(String::from_str("--hostname"));
            r.push(name.clone());
        } else {
            r.push(String::from_str("-d"));
            r.push(String::from_str("--name"));
            r.push(name.clone());
            r.push(String::from_str("--hostname"));
            r.push(name.clone());
        }
        let ghost with_naming = r.deep_view();
        let mut i2: usize = 0;
        while i2 < fwd.len()
            invariant
                i2 <= fwd@.len(),
                fwd.deep_view() == fwd_final,
                fwd@.len() == fwd_final.len(),
                r.deep_view() == with_naming + fwd_final.subrange(0, i2 as int),
            decreases fwd@.len() - i2,
        {
            let ghost before = r.deep_view();
            let p = fwd[i2].clone();
            proof {
                assert(fwd@[i2 as int]@ == fwd_final[i2 as int]);
            }
            r.push(p);
            i2 = i2 + 1;
            proof {
                assert(r.deep_view() =~~= before.push(fwd_final[i2 - 1]));
                assert(r.deep_view() =~~= with_naming + fwd_final.subrange(0, i2 as int));
            }
        }
        proof {
            assert(fwd_final.subrange(0, fwd_final.len() as int) =~= fwd_final);
        }
        r.push(String::from_str("--annotation"));
        r.push(String::from_str("manager=box"));
        r.push(String::from_str("--annotation"));
        r.push(String::from_str("box.name=").concat(name.as_str()));
        r.push(String::from_str("--annotation"));
        r.push(String::from_str("box.hash=").concat(hash.as_str()));
        r.push(name.clone());
        let ghost with_tail = r.deep_view();
        proof {
            let naming = if ephemeral_args.deep_view().len() > 0 {
                seq!["--rm"@, "-it"@, "--hostname"@, name@]
            } else {
                seq!["-d"@, "--name"@, name@, "--hostname"@, name@]
            };
            assert(with_naming =~~= seq!["run"@] + naming);
            assert(with_tail =~~= with_naming + fwd_final + seq![
                "--annotation"@,
                "manager=box"@,
                "--annotation"@,
                "box.name="@ + name@,
                "--annotation"@,
                "box.hash="@ + hash@,
                name@,
            ]);
        }
        let mut i3: usize = 0;
        while i3 < ephemeral_args.len()
            invariant
                i3 <= ephemeral_args@.len(),
                ephemeral_args.deep_view().len() == ephemeral_args@.len(),
                r.deep_view() == with_tail + ephemeral_args.deep_view().subrange(0, i3 as int),
            decreases ephemeral_args@.len() - i3,
        {
            let ghost before = r.deep_view();
            let p = ephemeral_args[i3].clone();
            proof {
                assert(ephemeral_args@[i3 as int]@ == ephemeral_args.deep_view()[i3 as int]);
            }
            r.push(p);
            i3 = i3 + 1;
            proof {
                assert(r.deep_view() =~~= before.push(ephemeral_args.deep_view()[i3 - 1]));
                assert(r.deep_view() =~~= with_tail + ephemeral_args.deep_view().subrange(
                    0,
                    i3 as int,
                ));
            }
        }
        proof {
            assert(ephemeral_args.deep_view().subrange(0, ephemeral_args.deep_view().len() as int)
                =~= ephemeral_args.deep_view());
            assert(r.deep_view() =~~= spec_instantiate(
                anns,
                replace,
                ephemeral_args.deep_view(),
            ));
        }
        r
    }

    /// The build record an image's annotations carry: its source path and
    /// the recorded hashes, parsed from hexadecimal. `None` when any of the
    /// three annotations is missing or a hash does not parse.
    pub fn record(&self) -> (r: Option<BuildRecord>)
        ensures
            match r {
                Some(rec) => {
                    &&& lookup(self.annotations.deep_view(), "box.path"@) == Some(rec.path@)
                    &&& match lookup(self.annotations.deep_view(), "box.hash"@) {
                        Some(h) => crate::hashing::is_hex(h) && crate::hashing::hex_value(h)
                            == rec.hash as int,
                        None => false,
                    }
                    &&& match lookup(self.annotations.deep_view(), "box.tree"@) {
                        Some(t) => crate::hashing::is_hex(t) && crate::hashing::hex_value(t)
                            == rec.tree as int,
                        None => false,
                    }
                },
                None => lookup(self.annotations.deep_view(), "box.path"@) is None || (match
                    lookup(self.annotations.deep_view(), "box.hash"@) {
                    Some(h) => !crate::hashing::is_hex(h) || crate::hashing::hex_value(h)
                        > u64::MAX,
                    None => true,
                }) || (match lookup(self.annotations.deep_view(), "box.tree"@) {
                    Some(t) => !crate::hashing::is_hex(t) || crate::hashing::hex_value(t)
                        > u64::MAX,
                    None => true,
                }),
            },
    {
        let path = match self.annotation("box.path") {
            Some(p) => p,
            None => {
                return None;
            },
        };
        let hash_s = match self.annotation("box.hash") {
            Some(h) => h,
            None => {
                return None;
            },
        };
        let tree_s = match self.annotation("box.tree") {
            Some(t) => t,
            None => {
                return None;
            },
        };
        let hc = chars_of(hash_s.as_str());
        let hash = match crate::hashing::parse_hex(&hc) {
            Some(h) => h,
            None => {
                return None;
            },
        };
        let tc = chars_of(tree_s.as_str());
        let tree = match crate::hashing::parse_hex(&tc) {
            Some(t) => t,
            None => {
                return None;
            },
        };
        Some(BuildRecord { path, hash, tree })
    }
}

/// Leading separators removed from a joined value.
pub open spec fn strip_leading_sep(s: Seq<char>) -> Seq<char>
    decreases s.len(),
{
    if s.len() > 0 && s[0] == sep() {
        strip_leading_sep(s.skip(1))
    } else {
        s
    }
}

/// Values joined with the separator between them.
pub open spec fn join_sep(vs: Seq<Seq<char>>) -> Seq<char>
    decreases vs.len(),
{
    if vs.len() == 0 {
        Seq::empty()
    } else if vs.len() == 1 {
        vs[0]
    } else {
        vs[0] + seq![sep()] + join_sep(vs.skip(1))
    }
}

/// The mapping string written back to an annotation: the key, an equals
/// sign, and the values joined by the separator, leading separators
/// removed.
pub open spec fn spec_annotation_mapping(key: Seq<char>, vs: Seq<Seq<char>>) -> Seq<char> {
    key + "="@ + strip_leading_sep(join_sep(vs))
}

/// Builds the `key=value` mapping string for writing an annotation back.
pub fn annotation_mapping(key: &str, values: &Vec<String>) -> (r: String)
    ensures
        r@ == spec_annotation_mapping(key@, values.deep_view()),
{
    let mut joined: Vec<char> = Vec::new();
    let mut i: usize = 0;
    proof {
        assert(values.deep_view().skip(0) =~= values.deep_view());
        if values@.len() > 0 {
            assert(joined@ + join_sep(values.deep_view()) =~= join_sep(values.deep_view()));
        }
    }
    while i < values.len()
        invariant
            i <= values@.len(),
            values.deep_view().len() == values@.len(),
            if i < values@.len() {
                join_sep(values.deep_view()) == joined@ + join_sep(
                    values.deep_view().skip(i as int),
                )
            } else {
                join_sep(values.deep_view()) == joined@
            },
        decreases values@.len() - i,
    {
        let ghost rest = values.deep_view().skip(i as int);
        proof {
            assert(rest[0] == values.deep_view()[i as int]);
            assert(rest.skip(1) =~= values.deep_view().skip(i + 1));
        }
        let vc = chars_of(values[i].as_str());
        proof {
            assert(vc@ == values.deep_view()[i as int]);
        }
        let mut j: usize = 0;
        let ghost before = joined@;
        while j < vc.len()
            invariant
                j <= vc@.len(),
                joined@ == before + vc@.subrange(0, j as int),
            decreases vc@.len() - j,
        {
            joined.push(vc[j]);
            j = j + 1;
            proof {
                assert(joined@ =~= before + vc@.subrange(0, j as int));
            }
        }
        proof {
            assert(vc@.subrange(0, vc@.len() as int) =~= vc@);
        }
        if i + 1 < values.len() {
            joined.push('\u{1f}');
            proof {
                assert(join_sep(rest) == rest[0] + seq![sep()] + join_sep(rest.skip(1)));
                assert(joined@ =~= before + rest[0] + seq![sep()]);
            }
        } else {
            proof {
                if rest.len() == 1 {
                    assert(join_sep(rest) == rest[0]);
                }
                assert(joined@ =~= before + rest[0]);
            }
        }
        i = i + 1;
    }
    proof {
        if values@.len() == 0 {
            assert(join_sep(values.deep_view()) =~= joined@);
        }
    }
    let mut a: usize = 0;
    proof {
        assert(joined@.skip(0) =~= joined@);
    }
    while a < joined.len() && joined[a] == '\u{1f}'
        invariant
            a <= joined@.len(),
            strip_leading_sep(joined@) == strip_leading_sep(joined@.skip(a as int)),
        decreases joined@.len() - a,
    {
        proof {
            assert(joined@.skip(a as int)[0] == joined@[a as int]);
            assert(joined@.skip(a as int).skip(1) =~= joined@.skip(a + 1));
        }
        a = a + 1;
    }
    proof {
        let t = joined@.skip(a as int);
        if t.len() > 0 {
            assert(t[0] == joined@[a as int]);
        }
        assert(strip_leading_sep(joined@) == t);
    }
    let tail = crate::text::subvec(&joined, a, joined.len());
    let tail_s = string_from_chars(&tail);
    let r = String::from_str(key).concat("=").concat(tail_s.as_str());
    proof {
        assert(tail@ =~= joined@.skip(a as int));
        assert(r@ == key@ + "="@ + strip_leading_sep(join_sep(values.deep_view())));
    }
    r
}

/// The pieces of an existing annotation value with one more value appended:
/// what an append-style annotation update writes back.
pub fn push_annotation_values(old: &str, data: &str) -> (r: Vec<String>)
    ensures
        r.deep_view() == split_char(old@, sep()).push(data@),
{
    let mut r = split_value(old);
    let ghost before = r.deep_view();
    r.push(data.to_owned());
    proof {
        assert(r.deep_view() =~~= before.push(data@));
    }
    r
}

} // verus!
