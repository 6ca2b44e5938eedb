//! Artifact coordinates: parsing them from repository paths and
//! rendering them back as remote paths and display strings.

use vstd::prelude::*;

verus! {

use vstd::string::StrSliceExecFns;
use vstd::string::StringExecFns;
use crate::strutil::contains_exec;
use crate::strutil::contains_substr;
use crate::strutil::find_last;
use crate::strutil::find_last_exec;
use crate::strutil::is_prefix_of;
use crate::strutil::join_seq;
use crate::strutil::join_upto;
use crate::strutil::replace_char;
use crate::strutil::replace_char_exec;
use crate::strutil::split_exec;
use crate::strutil::split_seq;
use crate::strutil::starts_with_exec;
use crate::strutil::str_eq;

/// The mathematical model of a coordinate: each field as a character
/// sequence.
#[verifier::ext_equal]
pub struct DepModel {
    pub group: Seq<char>,
    pub artifact: Seq<char>,
    pub version: Seq<char>,
    pub classifier: Option<Seq<char>>,
    pub dep_type: Seq<char>,
}

/// One artifact coordinate: group, artifact name, version, optional
/// classifier, and file type.
#[derive(Debug, PartialEq)]
pub struct Dependency {
    pub group: String,
    pub artifact: String,
    pub version: String,
    pub classifier: Option<String>,
    pub dep_type: String,
}

impl View for Dependency {
    type V = DepModel;

    open spec fn view(&self) -> DepModel {
        DepModel {
            group: self.group@,
            artifact: self.artifact@,
            version: self.version@,
            classifier: match self.classifier {
                Some(c) => Some(c@),
                None => None,
            },
            dep_type: self.dep_type@,
        }
    }
}

impl DeepView for Dependency {
    type V = DepModel;

    open spec fn deep_view(&self) -> DepModel {
        self.view()
    }
}

/// The file-name part of a coordinate's path:
/// `artifact-version[-classifier].type`.
pub open spec fn file_name_of(d: DepModel) -> Seq<char> {
    match d.classifier {
        Some(c) => d.artifact + seq!['-'] + d.version + seq!['-'] + c + seq!['.'] + d.dep_type,
        None => d.artifact + seq!['-'] + d.version + seq!['.'] + d.dep_type,
    }
}

/// The root-relative remote path of a coordinate: the group with dots
/// turned into slashes, then artifact, version and file name.
pub open spec fn url_path_of(d: DepModel) -> Seq<char> {
    replace_char(d.group, '.', '/') + seq!['/'] + d.artifact + seq!['/'] + d.version + seq!['/']
        + file_name_of(d)
}

/// How a coordinate is rendered for output.
pub enum DisplayFormat {
    Short,
    Long,
    Path,
}

/// The rendering of `d` under each display format.
pub open spec fn display_of(d: DepModel, fmt: DisplayFormat) -> Seq<char> {
    match fmt {
        DisplayFormat::Path => url_path_of(d),
        DisplayFormat::Short => d.group + seq![':'] + d.artifact + seq![':'] + d.version
            + seq![':'] + (match d.classifier {
            Some(c) => c,
            None => Seq::empty(),
        }) + seq![':'] + d.dep_type,
        DisplayFormat::Long => "group:"@ + d.group + ", artifact:"@ + d.artifact + ", version:"@
            + d.version + (match d.classifier {
            Some(c) => ", classifier:"@ + c,
            None => Seq::empty(),
        }) + ", type:"@ + d.dep_type,
    }
}

impl Dependency {
    pub fn to_url_path(&self) -> (r: String)
        ensures
            r@ == url_path_of(self@),
    {
        let mut r = replace_char_exec(self.group.as_str(), '.', '/');
        r.push('/');
        r.append(self.artifact.as_str());
        r.push('/');
        r.append(self.version.as_str());
        r.push('/');
        r.append(self.artifact.as_str());
        r.push('-');
        r.append(self.version.as_str());
        match &self.classifier {
            Some(c) => {
                r.push('-');
                r.append(c.as_str());
            },
            None => {},
        }
        r.push('.');
        r.append(self.dep_type.as_str());
        proof {
            assert(r@ =~= url_path_of(self@));
        }
        r
    }

    pub fn to_display(&self, disp_fmt: &DisplayFormat) -> (r: String)
        ensures
            r@ == display_of(self@, *disp_fmt),
    {
        match disp_fmt {
            DisplayFormat::Path => self.to_url_path(),
            DisplayFormat::Short => {
                let mut r = String::new();
                r.append(self.group.as_str());
                r.push(':');
                r.append(self.artifact.as_str());
                r.push(':');
                r.append(self.version.as_str());
                r.push(':');
                match &self.classifier {
                    Some(c) => {
                        r.append(c.as_str());
                    },
                    None => {},
                }
                r.push(':');
                r.append(self.dep_type.as_str());
                proof {
                    assert(r@ =~= display_of(self@, *disp_fmt));
                }
                r
            },
            DisplayFormat::Long => {
                let mut r = String::new();
                r.append("group:");
                r.append(self.group.as_str());
                r.append(", artifact:");
                r.append(self.artifact.as_str());
                r.append(", version:");
                r.append(self.version.as_str());
                match &self.classifier {
                    Some(c) => {
                        r.append(", classifier:");
                        r.append(c.as_str());
                    },
                    None => {},
                }
                r.append(", type:");
                r.append(self.dep_type.as_str());
                proof {
                    assert(r@ =~= display_of(self@, *disp_fmt));
                }
                r
            },
        }
    }
}

/// The root-relative form of `path`: separators normalized to `/`, the
/// normalized `root` removed when it is a prefix, and one leading slash
/// dropped.
pub open spec fn rel_path_of(path: Seq<char>, root: Seq<char>) -> Seq<char> {
    let p = replace_char(path, '\\', '/');
    let r = replace_char(root, '\\', '/');
    let stripped = if is_prefix_of(r, p) {
        p.skip(r.len() as int)
    } else {
        p
    };
    if stripped.len() > 0 && stripped[0] == '/' {
        stripped.skip(1)
    } else {
        stripped
    }
}

/// The classifier and type derived from a file name, or `None` when the
/// file name does not start with `artifact-version` or lacks a type.
/// An empty classifier is normalized to absent.
pub open spec fn classifier_type_of(artifact: Seq<char>, version: Seq<char>, file: Seq<char>)
    -> Option<(Option<Seq<char>>, Seq<char>)> {
    let prefix = artifact + seq!['-'] + version;
    if !is_prefix_of(prefix, file) {
        None
    } else {
        let rest = file.skip(prefix.len() as int);
        if rest.len() > 0 && rest[0] == '-' {
            match find_last(rest, '.') {
                Some(dot) => if dot + 1 < rest.len() {
                    let c = rest.subrange(1, dot);
                    let t = rest.subrange(dot + 1, rest.len() as int);
                    Some(
                        (
                            if c.len() > 0 {
                                Some(c)
                            } else {
                                None
                            },
                            t,
                        ),
                    )
                } else {
                    None
                },
                None => None,
            }
        } else if rest.len() > 1 && rest[0] == '.' {
            Some((None, rest.skip(1)))
        } else {
            None
        }
    }
}

/// The coordinate derived from a path, or `None` when the path is a
/// snapshot version, lies in an excluded group, or is malformed.
pub open spec fn parse_spec(path: Seq<char>, root: Seq<char>, ignored: Seq<Seq<char>>) -> Option<
    DepModel,
> {
    let parts = split_seq(rel_path_of(path, root), '/');
    if parts.len() < 4 {
        None
    } else {
        let group = join_seq(parts.subrange(0, parts.len() - 3), '.');
        let artifact = parts[parts.len() - 3];
        let version = parts[parts.len() - 2];
        let file = parts[parts.len() - 1];
        if contains_substr(version, "SNAPSHOT"@) {
            None
        } else if group.len() == 0 || artifact.len() == 0 || version.len() == 0 {
            None
        } else {
            match classifier_type_of(artifact, version, file) {
                Some((classifier, dep_type)) => if ignored.contains(group) {
                    None
                } else {
                    Some(DepModel { group, artifact, version, classifier, dep_type })
                },
                None => None,
            }
        }
    }
}

fn contains_group(ignored: &Vec<&str>, g: &str) -> (b: bool)
    ensures
        b == ignored.deep_view().contains(g@),
{
    let n = ignored.len();
    let mut i: usize = 0;
    while i < n
        invariant
            n == ignored@.len(),
            i <= n,
            forall|j: int| 0 <= j < i ==> ignored.deep_view()[j] != g@,
        decreases n - i,
    {
        if str_eq(ignored[i], g) {
            proof {
                assert(ignored.deep_view()[i as int] == g@);
            }
            return true;
        }
        i = i + 1;
    }
    proof {
        assert(forall|j: int|
            0 <= j < ignored.deep_view().len() ==> ignored.deep_view()[j] != g@);
    }
    false
}

impl Dependency {
    /// Derives the coordinate of `path` below `repo_root`, skipping
    /// snapshot versions, groups listed in `ignored_groups`, and paths
    /// that do not fit the `group/artifact/version/file` layout.
    pub fn parse(path: &str, repo_root: &str, ignored_groups: &Vec<&str>) -> (r: Option<
        Dependency,
    >)
        ensures
            match r {
                Some(d) => parse_spec(path@, repo_root@, ignored_groups.deep_view()) == Some(d@),
                None => parse_spec(path@, repo_root@, ignored_groups.deep_view()) is None,
            },
    {
        let ghost rel = rel_path_of(path@, repo_root@);
        let npath = replace_char_exec(path, '\\', '/');
        let nroot = replace_char_exec(repo_root, '\\', '/');
        let npath_len = npath.as_str().unicode_len();
        let nroot_len = nroot.as_str().unicode_len();
        let stripped: &str = if starts_with_exec(npath.as_str(), nroot.as_str()) {
            npath.as_str().substring_char(nroot_len, npath_len)
        } else {
            npath.as_str()
        };
        let stripped_len = stripped.unicode_len();
        let relative: &str = if stripped_len > 0 && stripped.get_char(0) == '/' {
            stripped.substring_char(1, stripped_len)
        } else {
            stripped
        };
        proof {
            assert(npath@.skip(nroot@.len() as int) =~= npath@.subrange(
                nroot@.len() as int,
                npath@.len() as int,
            ));
            assert(stripped@.skip(1) =~= stripped@.subrange(1, stripped@.len() as int));
            assert(relative@ == rel);
        }
        let parts = split_exec(relative, '/');
        let n = parts.len();
        proof {
            assert(parts.deep_view() == split_seq(rel, '/'));
            assert(n == parts.deep_view().len());
        }
        if n < 4 {
            return None;
        }
        let artifact: &String = &parts[n - 3];
        let version: &String = &parts[n - 2];
        let file: &String = &parts[n - 1];
        proof {
            assert(artifact@ == parts.deep_view()[n - 3]);
            assert(version@ == parts.deep_view()[n - 2]);
            assert(file@ == parts.deep_view()[n - 1]);
        }
        if contains_exec(version.as_str(), "SNAPSHOT") {
            return None;
        }
        let group = join_upto(&parts, n - 3, '.');
        let group_len = group.as_str().unicode_len();
        let artifact_len = artifact.as_str().unicode_len();
        let version_len = version.as_str().unicode_len();
        if group_len == 0 || artifact_len == 0 || version_len == 0 {
            return None;
        }
        let mut prefix = String::new();
        prefix.append(artifact.as_str());
        prefix.push('-');
        prefix.append(version.as_str());
        proof {
            assert(prefix@ == artifact@ + seq!['-'] + version@);
        }
        if !starts_with_exec(file.as_str(), prefix.as_str()) {
            return None;
        }
        let file_len = file.as_str().unicode_len();
        let prefix_len = prefix.as_str().unicode_len();
        let rest: &str = file.as_str().substring_char(prefix_len, file_len);
        let rest_len = rest.unicode_len();
        proof {
            assert(rest@ =~= file@.skip(prefix@.len() as int));
        }
        let classifier: Option<String>;
        let dep_type: String;
        if rest_len > 0 && rest.get_char(0) == '-' {
            match find_last_exec(rest, '.') {
                Some(dot) => {
                    proof {
                        crate::strutil::lemma_find_last_some(rest@, '.', dot as int);
                    }
                    if dot + 1 < rest_len {
                        let c = rest.substring_char(1, dot);
                        let t = rest.substring_char(dot + 1, rest_len);
                        classifier = if c.unicode_len() > 0 {
                            Some(c.to_owned())
                        } else {
                            None
                        };
                        dep_type = t.to_owned();
                    } else {
                        return None;
                    }
                },
                None => {
                    return None;
                },
            }
        } else if rest_len > 1 && rest.get_char(0) == '.' {
            classifier = None;
            let t = rest.substring_char(1, rest_len);
            proof {
                assert(t@ =~= rest@.skip(1));
            }
            dep_type = t.to_owned();
        } else {
            return None;
        }
        if contains_group(ignored_groups, group.as_str()) {
            return None;
        }
        let d = Dependency {
            group,
            artifact: artifact.clone(),
            version: version.clone(),
            classifier,
            dep_type,
        };
        proof {
            assert(Some(d@) =~~= parse_spec(path@, repo_root@, ignored_groups.deep_view()));
        }
        Some(d)
    }
}

/// A file name of exactly `artifact-version.type` has no classifier
/// and carries the whole tail after the dot as its type.
pub proof fn lemma_classifier_absent(artifact: Seq<char>, version: Seq<char>, t: Seq<char>)
    requires
        t.len() > 0,
    ensures
        classifier_type_of(artifact, version, artifact + seq!['-'] + version + seq!['.'] + t)
            == Some((None::<Seq<char>>, t)),
{
    let prefix = artifact + seq!['-'] + version;
    let file = artifact + seq!['-'] + version + seq!['.'] + t;
    assert(file.subrange(0, prefix.len() as int) =~= prefix);
    let rest = file.skip(prefix.len() as int);
    assert(rest =~= seq!['.'] + t);
    assert(rest[0] == '.');
    assert(rest.skip(1) =~= t);
}

/// A file name of `artifact-version-X.type` has classifier `X` when
/// the type holds no dot.
pub proof fn lemma_classifier_present(
    artifact: Seq<char>,
    version: Seq<char>,
    c: Seq<char>,
    t: Seq<char>,
)
    requires
        c.len() > 0,
        t.len() > 0,
        !t.contains('.'),
    ensures
        classifier_type_of(
            artifact,
            version,
            artifact + seq!['-'] + version + seq!['-'] + c + seq!['.'] + t,
        ) == Some((Some(c), t)),
{
    let prefix = artifact + seq!['-'] + version;
    let file = artifact + seq!['-'] + version + seq!['-'] + c + seq!['.'] + t;
    assert(file.subrange(0, prefix.len() as int) =~= prefix);
    let rest = file.skip(prefix.len() as int);
    assert(rest =~= seq!['-'] + c + seq!['.'] + t);
    assert(rest[0] == '-');
    crate::strutil::lemma_find_last_sep(seq!['-'] + c, t, '.');
    assert(find_last(rest, '.') == Some(c.len() as int + 1));
    let dot: int = c.len() as int + 1;
    assert(dot + 1 < rest.len());
    assert(rest.subrange(1, dot) =~= c);
    assert(rest.subrange(dot + 1, rest.len() as int) =~= t);
}

/// Any path whose version segment contains `SNAPSHOT` parses to
/// nothing, whatever its other segments hold.
pub proof fn lemma_snapshot_excluded(path: Seq<char>, root: Seq<char>, ignored: Seq<Seq<char>>)
    requires
        ({
            let parts = split_seq(rel_path_of(path, root), '/');
            parts.len() >= 4 && contains_substr(parts[parts.len() - 2], "SNAPSHOT"@)
        }),
    ensures
        parse_spec(path, root, ignored) is None,
{
}

/// Exclusion is by exact match: a parsed coordinate never lies in an
/// excluded group, and a coordinate whose group is not a member of the
/// exclusion set is retained exactly as it parses with no exclusions.
pub proof fn lemma_group_exclusion(path: Seq<char>, root: Seq<char>, ignored: Seq<Seq<char>>)
    ensures
        parse_spec(path, root, ignored) matches Some(d) ==> !ignored.contains(d.group),
        (parse_spec(path, root, Seq::empty()) matches Some(d) && !ignored.contains(d.group))
            ==> parse_spec(path, root, ignored) == parse_spec(path, root, Seq::empty()),
{
}

/// A path of exactly four segments keeps its whole first segment as a
/// single-segment group: a legacy unnamespaced group is preserved.
pub proof fn lemma_short_group(path: Seq<char>, root: Seq<char>, ignored: Seq<Seq<char>>)
    requires
        split_seq(rel_path_of(path, root), '/').len() == 4,
    ensures
        parse_spec(path, root, ignored) matches Some(d) ==> d.group == split_seq(
            rel_path_of(path, root),
            '/',
        )[0],
{
    let parts = split_seq(rel_path_of(path, root), '/');
    assert(parts.subrange(0, 1) =~= seq![parts[0]]);
    assert(join_seq(seq![parts[0]], '.') == parts[0]);
}

/// A coordinate whose fields survive the path round trip: non-empty
/// group, artifact, version and type; no path separators in any field;
/// a group that does not begin with a dot; a version free of
/// `SNAPSHOT`; a non-empty classifier when one is present; and a
/// dot-free type when a classifier is present.
pub open spec fn valid_model(d: DepModel) -> bool {
    &&& d.group.len() > 0
    &&& d.artifact.len() > 0
    &&& d.version.len() > 0
    &&& d.dep_type.len() > 0
    &&& d.group[0] != '.'
    &&& !d.group.contains('/')
    &&& !d.group.contains('\\')
    &&& !d.artifact.contains('/')
    &&& !d.artifact.contains('\\')
    &&& !d.version.contains('/')
    &&& !d.version.contains('\\')
    &&& !d.dep_type.contains('/')
    &&& !d.dep_type.contains('\\')
    &&& !contains_substr(d.version, "SNAPSHOT"@)
    &&& match d.classifier {
        Some(c) => c.len() > 0 && !c.contains('/') && !c.contains('\\')
            && !d.dep_type.contains('.'),
        None => true,
    }
}

/// Round-trip law: the remote path of a valid coordinate parses back,
/// with an empty root and no applicable exclusion, to that same
/// coordinate.
pub proof fn lemma_round_trip(d: DepModel, ignored: Seq<Seq<char>>)
    requires
        valid_model(d),
        !ignored.contains(d.group),
    ensures
        parse_spec(url_path_of(d), Seq::empty(), ignored) == Some(d),
{
    let url = url_path_of(d);
    let sg = replace_char(d.group, '.', '/');
    let file = file_name_of(d);

    // The file name holds no separator in any of its pieces.
    assert(!file.contains('/') && !file.contains('\\')) by {
        lemma_file_name_no_char(d, '/');
        lemma_file_name_no_char(d, '\\');
    }

    // Normalization is the identity: the url holds no backslash.
    assert(!sg.contains('\\')) by {
        crate::strutil::lemma_replace_not_contains(d.group, '.', '/', '\\');
    }
    assert(!url.contains('\\')) by {
        crate::strutil::lemma_not_contains_single('/', '\\');
        crate::strutil::lemma_not_contains_concat(sg, seq!['/'], '\\');
        crate::strutil::lemma_not_contains_concat(sg + seq!['/'], d.artifact, '\\');
        crate::strutil::lemma_not_contains_concat(sg + seq!['/'] + d.artifact, seq!['/'], '\\');
        crate::strutil::lemma_not_contains_concat(
            sg + seq!['/'] + d.artifact + seq!['/'],
            d.version,
            '\\',
        );
        crate::strutil::lemma_not_contains_concat(
            sg + seq!['/'] + d.artifact + seq!['/'] + d.version,
            seq!['/'],
            '\\',
        );
        crate::strutil::lemma_not_contains_concat(
            sg + seq!['/'] + d.artifact + seq!['/'] + d.version + seq!['/'],
            file,
            '\\',
        );
    }
    crate::strutil::lemma_replace_id(url, '\\', '/');
    crate::strutil::lemma_replace_id(Seq::empty(), '\\', '/');

    // The empty root is a prefix and strips nothing; the first
    // character is not a slash, so nothing else is stripped.
    let rel = rel_path_of(url, Seq::empty());
    assert(is_prefix_of(Seq::empty(), url)) by {
        assert(url.subrange(0, 0) =~= Seq::<char>::empty());
    }
    assert(url.skip(0) =~= url);
    assert(url[0] == sg[0]);
    assert(d.group[0] != '/') by {
        if d.group[0] == '/' {
            assert(d.group.contains('/'));
        }
    }
    assert(url[0] != '/');
    assert(rel == url);

    // The url splits into the group segments, artifact, version and
    // file name.
    let tail = d.artifact + seq!['/'] + (d.version + seq!['/'] + file);
    assert(url =~= sg + seq!['/'] + tail);
    crate::strutil::lemma_split_concat(sg, tail, '/');
    crate::strutil::lemma_split_concat(d.artifact, d.version + seq!['/'] + file, '/');
    crate::strutil::lemma_split_concat(d.version, file, '/');
    crate::strutil::lemma_split_no_sep(d.artifact, '/');
    crate::strutil::lemma_split_no_sep(d.version, '/');
    crate::strutil::lemma_split_no_sep(file, '/');
    let gparts = split_seq(sg, '/');
    crate::strutil::lemma_split_len(sg, '/');
    let parts = split_seq(rel, '/');
    assert(parts =~= gparts + seq![d.artifact] + seq![d.version] + seq![file]);
    let n = parts.len();
    assert(n == gparts.len() + 3 >= 4);
    assert(parts[n - 3] == d.artifact);
    assert(parts[n - 2] == d.version);
    assert(parts[n - 1] == file);

    // The group joins back to itself.
    assert(parts.subrange(0, n - 3) =~= gparts);
    crate::strutil::lemma_join_split(sg, '/', '.');
    assert(join_seq(gparts, '.') == replace_char(sg, '/', '.'));
    assert(replace_char(sg, '/', '.') =~= d.group) by {
        assert(forall|i: int| 0 <= i < d.group.len() ==> d.group[i] != '/') by {
            assert forall|i: int| 0 <= i < d.group.len() implies d.group[i] != '/' by {
                if d.group[i] == '/' {
                    assert(d.group.contains('/'));
                }
            }
        }
    }

    // The file name yields the classifier and type.
    match d.classifier {
        Some(c) => {
            lemma_classifier_present(d.artifact, d.version, c, d.dep_type);
        },
        None => {
            lemma_classifier_absent(d.artifact, d.version, d.dep_type);
        },
    }

    assert(parse_spec(url, Seq::empty(), ignored) =~~= Some(d));
}

/// No path separator occurs in the file name of a valid coordinate.
proof fn lemma_file_name_no_char(d: DepModel, x: char)
    requires
        valid_model(d),
        x == '/' || x == '\\',
    ensures
        !file_name_of(d).contains(x),
{
    crate::strutil::lemma_not_contains_single('-', x);
    crate::strutil::lemma_not_contains_single('.', x);
    match d.classifier {
        Some(c) => {
            crate::strutil::lemma_not_contains_concat(d.artifact, seq!['-'], x);
            crate::strutil::lemma_not_contains_concat(d.artifact + seq!['-'], d.version, x);
            crate::strutil::lemma_not_contains_concat(
                d.artifact + seq!['-'] + d.version,
                seq!['-'],
                x,
            );
            crate::strutil::lemma_not_contains_concat(
                d.artifact + seq!['-'] + d.version + seq!['-'],
                c,
                x,
            );
            crate::strutil::lemma_not_contains_concat(
                d.artifact + seq!['-'] + d.version + seq!['-'] + c,
                seq!['.'],
                x,
            );
            crate::strutil::lemma_not_contains_concat(
                d.artifact + seq!['-'] + d.version + seq!['-'] + c + seq!['.'],
                d.dep_type,
                x,
            );
        },
        None => {
            crate::strutil::lemma_not_contains_concat(d.artifact, seq!['-'], x);
            crate::strutil::lemma_not_contains_concat(d.artifact + seq!['-'], d.version, x);
            crate::strutil::lemma_not_contains_concat(
                d.artifact + seq!['-'] + d.version,
                seq!['.'],
                x,
            );
            crate::strutil::lemma_not_contains_concat(
                d.artifact + seq!['-'] + d.version + seq!['.'],
                d.dep_type,
                x,
            );
        },
    }
}

/// Case-insensitive match of one character against an ASCII lower-case
/// letter or other exact character.
pub open spec fn char_matches_lower(a: char, b: char) -> bool {
    a == b || (97 <= b as int <= 122 && a as int + 32 == b as int)
}

/// Case-insensitive match of a label against an ASCII lower-case word.
pub open spec fn label_matches(label: Seq<char>, word: Seq<char>) -> bool {
    label.len() == word.len() && forall|i: int|
        0 <= i < label.len() ==> char_matches_lower(label[i], word[i])
}

/// The format selected by a label: `short` and `path` (in any letter
/// case) name their formats; every other label falls back to `Long`.
pub open spec fn format_of(label: Seq<char>) -> DisplayFormat {
    if label_matches(label, "short"@) {
        DisplayFormat::Short
    } else if label_matches(label, "path"@) {
        DisplayFormat::Path
    } else {
        DisplayFormat::Long
    }
}

fn eq_ignore_ascii_case(label: &str, word: &str) -> (b: bool)
    ensures
        b == label_matches(label@, word@),
{
    let n = label.unicode_len();
    let m = word.unicode_len();
    if n != m {
        return false;
    }
    let mut i: usize = 0;
    while i < n
        invariant
            n == label@.len(),
            n == word@.len(),
            i <= n,
            forall|j: int| 0 <= j < i ==> char_matches_lower(label@[j], word@[j]),
        decreases n - i,
    {
        let a = label.get_char(i);
        let b = word.get_char(i);
        let matched: bool = if a == b {
            true
        } else {
            let au = a as u32;
            let bu = b as u32;
            97 <= bu && bu <= 122 && au + 32 == bu
        };
        if !matched {
            return false;
        }
        i = i + 1;
    }
    true
}

impl DisplayFormat {
    pub fn from(label: &str) -> (r: DisplayFormat)
        ensures
            r == format_of(label@),
    {
        if eq_ignore_ascii_case(label, "short") {
            DisplayFormat::Short
        } else if eq_ignore_ascii_case(label, "path") {
            DisplayFormat::Path
        } else {
            DisplayFormat::Long
        }
    }
}

} // verus!
