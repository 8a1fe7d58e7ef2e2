//! Coordinates, and the local repository: where under its root the files of an
//! artifact lie.

use crate::error::{RepositoryOperationError, UrlFault};
use crate::remote::file_url_of;
pub use crate::remote::RemoteRepository;
use crate::text::{split, split_on, suffix_each};
use vstd::prelude::*;
use vstd::std_specs::cmp::PartialEqSpecImpl;
use vstd::string::StringExecFns;

verus! {

/// The mathematical value of an [`Artifact`]: its three fields as character sequences.
pub struct ArtifactView {
    pub group_id: Seq<char>,
    pub artifact_id: Seq<char>,
    pub version: Seq<char>,
}

/// A Java artifact, identified by group, name and version.
#[derive(Debug)]
pub struct Artifact {
    pub group_id: String,
    pub artifact_id: String,
    pub version: String,
}

impl View for Artifact {
    type V = ArtifactView;

    open spec fn view(&self) -> ArtifactView {
        ArtifactView {
            group_id: self.group_id@,
            artifact_id: self.artifact_id@,
            version: self.version@,
        }
    }
}

impl DeepView for Artifact {
    type V = ArtifactView;

    open spec fn deep_view(&self) -> ArtifactView {
        self@
    }
}

impl PartialEq for Artifact {
    fn eq(&self, other: &Self) -> (r: bool) {
        self.group_id == other.group_id && self.artifact_id == other.artifact_id && self.version
            == other.version
    }
}

impl PartialEqSpecImpl for Artifact {
    open spec fn obeys_eq_spec() -> bool {
        true
    }

    open spec fn eq_spec(&self, other: &Self) -> bool {
        self@ == other@
    }
}

impl Clone for Artifact {
    fn clone(&self) -> (r: Self)
        ensures
            r@ == self@,
    {
        Artifact {
            group_id: self.group_id.clone(),
            artifact_id: self.artifact_id.clone(),
            version: self.version.clone(),
        }
    }
}

impl Artifact {
    /// Builds the coordinate `(group_id, artifact_id, version)`.
    pub fn new(group_id: &str, artifact_id: &str, version: &str) -> (r: Self)
        ensures
            r@.group_id == group_id@,
            r@.artifact_id == artifact_id@,
            r@.version == version@,
    {
        Artifact {
            group_id: group_id.to_owned(),
            artifact_id: artifact_id.to_owned(),
            version: version.to_owned(),
        }
    }
}

/// `root` made ready to take a component: followed by a `/`, unless it is empty
/// or already ends with one.
pub open spec fn rooted(root: Seq<char>) -> Seq<char> {
    if root.len() == 0 || root.last() == '/' {
        root
    } else {
        root + seq!['/']
    }
}

/// The directory of a coordinate under `root`: one component for each piece of the
/// group between its dots, then the artifact name.
pub open spec fn directory_of(root: Seq<char>, artifact: ArtifactView) -> Seq<char> {
    rooted(root) + suffix_each(split_on(artifact.group_id, '.'), '/') + artifact.artifact_id
}

/// The file of a coordinate under `root` that is named by the version followed by
/// `suffix`, in the coordinate's directory.
pub open spec fn file_of(root: Seq<char>, artifact: ArtifactView, suffix: Seq<char>) -> Seq<
    char,
> {
    directory_of(root, artifact) + seq!['/'] + artifact.version + suffix
}

/// The suffix of the file that holds an artifact's binary.
pub open spec fn jar_suffix() -> Seq<char> {
    ".jar"@
}

/// The suffix of the file that holds an artifact's manifest.
pub open spec fn pom_suffix() -> Seq<char> {
    ".pom"@
}

/// A local repository: a root directory under which each artifact has its
/// directory, and in it one binary file and one manifest file per version.
pub struct Repository {
    base_path: String,
}

impl View for Repository {
    type V = Seq<char>;

    /// The root directory.
    closed spec fn view(&self) -> Seq<char> {
        self.base_path@
    }
}

/// `base` followed by a `/`, unless it is empty or ends with one.
fn with_separator(base: &str) -> (r: String)
    ensures
        r@ == rooted(base@),
{
    let chars = crate::text::chars_of(base);
    let n = chars.len();
    let mut r = base.to_owned();
    if n > 0 && chars[n - 1] != '/' {
        proof {
            reveal_strlit("/");
        }
        r.append("/");
        assert(r@ == base@ + seq!['/']);
    }
    r
}

impl Repository {
    /// The repository rooted at `base_path`.
    pub fn new(base_path: &str) -> (r: Self)
        ensures
            r@ == base_path@,
    {
        Repository { base_path: base_path.to_owned() }
    }

    /// The repository in the directory `./repo` of the home directory `home`.
    pub fn in_home(home: &str) -> (r: Self)
        ensures
            r@ == rooted(home@) + "./repo"@,
    {
        let mut base_path = with_separator(home);
        base_path.append("./repo");
        Repository { base_path }
    }

    /// The root directory.
    pub fn base_path(&self) -> (r: &String)
        ensures
            r@ == self@,
    {
        &self.base_path
    }

    /// The directory that holds the files of every version of `artifact`.
    pub fn artifact_as_dirname(&self, artifact: &Artifact) -> (r: String)
        ensures
            r@ == directory_of(self@, artifact@),
    {
        let mut r = with_separator(self.base_path.as_str());
        let pieces = split(artifact.group_id.as_str(), '.');
        let ghost all = split_on(artifact.group_id@, '.');
        proof {
            reveal_strlit("/");
        }
        let mut i: usize = 0;
        while i < pieces.len()
            invariant
                i <= pieces.len(),
                pieces.deep_view() == all,
                r@ == rooted(self@) + suffix_each(all.take(i as int), '/'),
                "/"@ == seq!['/'],
            decreases pieces.len() - i,
        {
            let ghost before = r@;
            r.append(pieces[i].as_str());
            r.append("/");
            proof {
                assert(pieces[i as int]@ == all[i as int]);
                let next = all.take(i + 1);
                assert(next.drop_last() == all.take(i as int));
                assert(next.last() == all[i as int]);
                assert(r@ == rooted(self@) + (suffix_each(all.take(i as int), '/') + all[i as int]
                    + seq!['/']));
            }
            i += 1;
        }
        assert(all.take(i as int) == all);
        r.append(artifact.artifact_id.as_str());
        assert(r@ == rooted(self@) + suffix_each(all, '/') + artifact@.artifact_id);
        r
    }

    /// The file `<version><suffix>` in the directory of `artifact`.
    fn artifact_file(&self, artifact: &Artifact, suffix: &str) -> (r: String)
        ensures
            r@ == file_of(self@, artifact@, suffix@),
    {
        let mut r = self.artifact_as_dirname(artifact);
        proof {
            reveal_strlit("/");
        }
        r.append("/");
        r.append(artifact.version.as_str());
        r.append(suffix);
        assert(r@ == directory_of(self@, artifact@) + seq!['/'] + artifact@.version + suffix@);
        r
    }

    /// The file that holds the binary of `artifact`: the version followed by
    /// `.jar`, whatever the version holds.
    pub fn artifact_jar_path(&self, artifact: &Artifact) -> (r: String)
        ensures
            r@ == file_of(self@, artifact@, jar_suffix()),
    {
        self.artifact_file(artifact, ".jar")
    }

    /// The file that holds the manifest of `artifact`: the version followed by
    /// `.pom`, whatever the version holds. That this file is there is what says
    /// that the artifact is in the repository.
    pub fn artifact_pom_path(&self, artifact: &Artifact) -> (r: String)
        ensures
            r@ == file_of(self@, artifact@, pom_suffix()),
    {
        self.artifact_file(artifact, ".pom")
    }

    /// What it takes to save `artifact` from `remote_repository`: the URLs to
    /// fetch and the places to write to. Nothing is fetched or written here.
    /// The URL of the manifest is derived first, so its fault comes first.
    pub fn download_plan(&self, artifact: &Artifact, remote_repository: &RemoteRepository) -> (r:
        Result<Download, RepositoryOperationError>)
        ensures
            match r {
                Ok(plan) => {
                    &&& file_url_of(remote_repository@, artifact@, pom_suffix()) == Ok::<
                        Seq<char>,
                        UrlFault,
                    >(plan.pom_url@)
                    &&& file_url_of(remote_repository@, artifact@, jar_suffix()) == Ok::<
                        Seq<char>,
                        UrlFault,
                    >(plan.jar_url@)
                    &&& plan.directory@ == directory_of(self@, artifact@)
                    &&& plan.jar_path@ == file_of(self@, artifact@, jar_suffix())
                    &&& plan.pom_path@ == file_of(self@, artifact@, pom_suffix())
                },
                Err(RepositoryOperationError::InvalidArtifactName(error)) => {
                    let pom = file_url_of(remote_repository@, artifact@, pom_suffix());
                    let jar = file_url_of(remote_repository@, artifact@, jar_suffix());
                    if pom is Err {
                        pom == Err::<Seq<char>, UrlFault>(error@)
                    } else {
                        jar == Err::<Seq<char>, UrlFault>(error@)
                    }
                },
                Err(_) => false,
            },
    {
        let pom_url = match remote_repository.pom_artifact_url(artifact) {
            Ok(url) => url,
            Err(error) => {
                return Err(RepositoryOperationError::InvalidArtifactName(error));
            },
        };
        let jar_url = match remote_repository.jar_artifact_url(artifact) {
            Ok(url) => url,
            Err(error) => {
                return Err(RepositoryOperationError::InvalidArtifactName(error));
            },
        };
        Ok(
            Download {
                pom_url,
                jar_url,
                directory: self.artifact_as_dirname(artifact),
                jar_path: self.artifact_jar_path(artifact),
                pom_path: self.artifact_pom_path(artifact),
            },
        )
    }
}

/// What it takes to save one artifact from a remote repository.
#[derive(Debug)]
pub struct Download {
    /// The URL of the manifest.
    pub pom_url: String,
    /// The URL of the binary.
    pub jar_url: String,
    /// The directory that the two files are written to; it is created where it
    /// is not there.
    pub directory: String,
    /// The file that the binary is written to.
    pub jar_path: String,
    /// The file that the manifest is written to.
    pub pom_path: String,
}

/// The part of `path` before its last `/`: the directory that holds it. A path
/// without a `/` has none, and the result is the path itself.
pub open spec fn parent_of(path: Seq<char>) -> Seq<char> {
    path.take(crate::text::last_index(path, '/') as int)
}

/// The binary and the manifest of a coordinate lie in the same directory, and
/// their paths differ in the suffix only: both are the same path, the one with
/// `.jar` and the other with `.pom` after it.
pub proof fn lemma_files_are_siblings(root: Seq<char>, artifact: ArtifactView)
    ensures
        parent_of(file_of(root, artifact, jar_suffix())) == parent_of(
            file_of(root, artifact, pom_suffix()),
        ),
        file_of(root, artifact, jar_suffix()) == file_of(root, artifact, Seq::empty())
            + jar_suffix(),
        file_of(root, artifact, pom_suffix()) == file_of(root, artifact, Seq::empty())
            + pom_suffix(),
        jar_suffix().len() == pom_suffix().len(),
{
    reveal_strlit(".jar");
    reveal_strlit(".pom");
    let stem = file_of(root, artifact, Seq::empty());
    let jar = file_of(root, artifact, jar_suffix());
    let pom = file_of(root, artifact, pom_suffix());
    assert(jar == stem + jar_suffix());
    assert(pom == stem + pom_suffix());
    let slash = directory_of(root, artifact).len() as int;
    assert(stem[slash] == '/');
    crate::text::lemma_last_index(stem, '/');
    let last = crate::text::last_index(stem, '/') as int;
    assert(last < stem.len()) by {
        if last == stem.len() {
            assert(stem[slash] != '/');
        }
    }
    assert forall|k: int| last < k < jar.len() implies jar[k] != '/' by {
        if k < stem.len() {
            assert(jar[k] == stem[k]);
        } else {
            assert(jar[k] == jar_suffix()[k - stem.len()]);
        }
    }
    assert forall|k: int| last < k < pom.len() implies pom[k] != '/' by {
        if k < stem.len() {
            assert(pom[k] == stem[k]);
        } else {
            assert(pom[k] == pom_suffix()[k - stem.len()]);
        }
    }
    assert(jar[last] == stem[last]);
    assert(pom[last] == stem[last]);
    crate::text::lemma_last_index_is(jar, '/', last);
    crate::text::lemma_last_index_is(pom, '/', last);
    assert(jar.take(last) == stem.take(last));
    assert(pom.take(last) == stem.take(last));
}

} // verus!
