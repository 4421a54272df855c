//! Packages and their license files: dropping the files of requirements that
//! minimization did not select.
use vstd::prelude::*;
use crate::expr::{LicenseError, parse, parsed, texts_of, contains_text};
use crate::minimize::minimized;

verus! {

/// A license file found for a package.
#[derive(Debug)]
pub struct LicenseFile {
    /// File name of the license file.
    pub name: String,
    /// The license's SPDX identifier, when known.
    pub spdx: Option<String>,
    /// The file's contents.
    pub text: String,
}

/// A package and the licenses that apply to it.
#[derive(Debug)]
pub struct Package {
    pub package_name: String,
    pub package_version: String,
    /// The repository, the registry page or the homepage of the package.
    pub package_url: Option<String>,
    /// The combined license expression of the package, when known.
    pub license_spdx: Option<String>,
    pub license_files: Vec<LicenseFile>,
}

/// A package whose licensing could not be resolved, and why.
#[derive(Debug)]
pub struct PackageError {
    pub package_name: String,
    pub package_version: String,
    /// The package's license expression.
    pub expression: String,
    pub error: LicenseError,
}

/// Whether a file stays beside the requirements `m`: it is unclassified, or
/// its identifier is one of them.
pub open spec fn keeps(f: LicenseFile, m: Seq<Seq<char>>) -> bool {
    match f.spdx {
        None => true,
        Some(s) => m.contains(s@),
    }
}

/// The files of `fs` that stay beside `m`, in their order.
pub open spec fn kept_files(fs: Seq<LicenseFile>, m: Seq<Seq<char>>) -> Seq<LicenseFile>
    decreases fs.len(),
{
    if fs.len() == 0 {
        fs
    } else {
        let k = kept_files(fs.drop_last(), m);
        if keeps(fs.last(), m) {
            k.push(fs.last())
        } else {
            k
        }
    }
}

/// The minimized requirements of a license expression's text under `policy`;
/// `None` when the text is malformed or no accepted requirements satisfy it.
pub open spec fn required(text: Seq<char>, policy: Seq<Seq<char>>) -> Option<Seq<Seq<char>>> {
    match parsed(text) {
        Some(e) => minimized(e, policy),
        None => None,
    }
}

/// Whether minimizing the package under `policy` fails.
pub open spec fn fails(p: Package, policy: Seq<Seq<char>>) -> bool {
    match p.license_spdx {
        Some(s) => required(s@, policy) is None,
        None => false,
    }
}

/// `q` is `p` with the files that its minimized requirements do not select
/// dropped; a package without an expression keeps all its files.
pub open spec fn pruned(p: Package, q: Package, policy: Seq<Seq<char>>) -> bool {
    &&& q.package_name == p.package_name
    &&& q.package_version == p.package_version
    &&& q.package_url == p.package_url
    &&& q.license_spdx == p.license_spdx
    &&& match p.license_spdx {
        Some(s) => q.license_files@ == kept_files(p.license_files@, required(s@, policy)->Some_0),
        None => q.license_files@ == p.license_files@,
    }
}

/// Every file that stays beside `m` is unclassified or carries one of `m`.
pub proof fn lemma_kept_files_keep(fs: Seq<LicenseFile>, m: Seq<Seq<char>>)
    ensures
        forall|k: int| 0 <= k < kept_files(fs, m).len() ==> keeps(#[trigger] kept_files(fs, m)[k], m),
    decreases fs.len(),
{
    if fs.len() > 0 {
        lemma_kept_files_keep(fs.drop_last(), m);
        let k = kept_files(fs.drop_last(), m);
        if keeps(fs.last(), m) {
            assert forall|j: int| 0 <= j < k.len() + 1 implies keeps(#[trigger] k.push(fs.last())[j], m) by {
                if j < k.len() {
                    assert(k.push(fs.last())[j] == k[j]);
                }
            }
        }
    }
}

/// After a package is minimized, each file that remains is unclassified or
/// carries one of the package's minimized requirements.
pub proof fn lemma_pruned_files_keep(p: Package, q: Package, policy: Seq<Seq<char>>)
    requires
        pruned(p, q, policy),
        p.license_spdx is Some,
    ensures
        forall|k: int| 0 <= k < q.license_files.len() ==>
            keeps(#[trigger] q.license_files@[k], required(p.license_spdx->Some_0@, policy)->Some_0),
{
    lemma_kept_files_keep(p.license_files@, required(p.license_spdx->Some_0@, policy)->Some_0);
}

/// Drops the files that neither are unclassified nor carry one of `keep`.
pub fn retain_files(files: &mut Vec<LicenseFile>, keep: &Vec<String>)
    ensures
        final(files)@ == kept_files(old(files)@, texts_of(keep@)),
{
    let ghost m = texts_of(keep@);
    let mut rest: Vec<LicenseFile> = Vec::new();
    std::mem::swap(files, &mut rest);
    let ghost orig = rest@;
    let len: usize = rest.len();
    let ghost n = len as nat;
    let mut i: usize = 0;
    while rest.len() > 0
        invariant
            0 <= i <= n,
            n == orig.len(),
            n <= usize::MAX,
            m == texts_of(keep@),
            rest@ == orig.subrange(i as int, n as int),
            files@ == kept_files(orig.take(i as int), m),
        decreases rest.len(),
    {
        let f = rest.remove(0);
        assert(f == orig[i as int]);
        assert(orig.take(i + 1).drop_last() =~= orig.take(i as int));
        assert(orig.take(i + 1).last() == f);
        assert(rest@ =~= orig.subrange(i + 1, n as int));
        let k = match &f.spdx {
            None => true,
            Some(s) => {
                let c = contains_text(keep, s);
                assert(c == m.contains(s@));
                c
            },
        };
        assert(k == keeps(f, m));
        if k {
            files.push(f);
        }
        i = i + 1;
    }
    assert(orig.take(i as int) =~= orig);
}

/// Drops the package's files that its minimized requirements do not select;
/// on failure the package is left as it was.
pub fn minimize_package(p: &mut Package, accepted: &Vec<String>) -> (r: Result<(), LicenseError>)
    ensures
        match r {
            Ok(()) => !fails(*old(p), texts_of(accepted@)) && pruned(*old(p), *final(p), texts_of(accepted@)),
            Err(e) => fails(*old(p), texts_of(accepted@)) && *final(p) == *old(p) && (
                match e {
                    LicenseError::MalformedExpression { expression } =>
                        parsed(old(p).license_spdx->Some_0@) is None && expression@ == old(p).license_spdx->Some_0@,
                    LicenseError::UnsatisfiableLicense => parsed(old(p).license_spdx->Some_0@) is Some,
                    _ => false,
                }),
        },
{
    match &p.license_spdx {
        None => Ok(()),
        Some(s) => {
            let e = parse(s.as_str())?;
            let m = e.minimized_requirements(accepted)?;
            retain_files(&mut p.license_files, &m);
            Ok(())
        },
    }
}

/// Minimizes each package in order, stopping at the first that fails: the
/// packages before it are pruned, it and those after it are left as they
/// were.
pub fn minimize_requirements(packages: &mut Vec<Package>, accepted: &Vec<String>) -> (r: Result<(), PackageError>)
    ensures
        final(packages).len() == old(packages).len(),
        r is Ok <==> forall|i: int| 0 <= i < old(packages).len() ==> !fails(#[trigger] old(packages)@[i], texts_of(accepted@)),
        r is Ok ==> forall|i: int| 0 <= i < old(packages).len() ==>
            pruned(#[trigger] old(packages)@[i], final(packages)@[i], texts_of(accepted@)),
        match r {
            Ok(()) => true,
            Err(e) => exists|k: int| 0 <= k < old(packages).len() && {
                &&& fails(#[trigger] old(packages)@[k], texts_of(accepted@))
                &&& forall|i: int| 0 <= i < k ==> !fails(#[trigger] old(packages)@[i], texts_of(accepted@))
                &&& (parsed(old(packages)@[k].license_spdx->Some_0@) is None ==>
                    (e.error matches LicenseError::MalformedExpression { expression }
                        && expression@ == old(packages)@[k].license_spdx->Some_0@))
                &&& (parsed(old(packages)@[k].license_spdx->Some_0@) is Some ==>
                    e.error matches LicenseError::UnsatisfiableLicense)
                &&& e.package_name == old(packages)@[k].package_name
                &&& e.package_version == old(packages)@[k].package_version
                &&& Some(e.expression) == old(packages)@[k].license_spdx
                &&& forall|i: int| 0 <= i < k ==> pruned(old(packages)@[i], #[trigger] final(packages)@[i], texts_of(accepted@))
                &&& forall|i: int| k <= i < old(packages).len() ==> #[trigger] final(packages)@[i] == old(packages)@[i]
            },
        },
{
    let ghost pol = texts_of(accepted@);
    let mut rest: Vec<Package> = Vec::new();
    std::mem::swap(packages, &mut rest);
    let ghost orig = rest@;
    let len: usize = rest.len();
    let ghost n = len as nat;
    let mut i: usize = 0;
    while rest.len() > 0
        invariant
            0 <= i <= n,
            n == orig.len(),
            n <= usize::MAX,
            orig == old(packages)@,
            pol == texts_of(accepted@),
            rest@ == orig.subrange(i as int, n as int),
            packages@.len() == i,
            forall|j: int| 0 <= j < i ==> !fails(#[trigger] orig[j], pol),
            forall|j: int| 0 <= j < i ==> pruned(orig[j], #[trigger] packages@[j], pol),
        decreases rest.len(),
    {
        let mut p = rest.remove(0);
        assert(p == orig[i as int]);
        assert(rest@ =~= orig.subrange(i + 1, n as int));
        let ghost p0 = p;
        match minimize_package(&mut p, accepted) {
            Ok(()) => {
                packages.push(p);
            },
            Err(error) => {
                let expression = match &p.license_spdx {
                    Some(s) => s.clone(),
                    None => String::new(),
                };
                let err = PackageError {
                    package_name: p.package_name.clone(),
                    package_version: p.package_version.clone(),
                    expression,
                    error,
                };
                let ghost before = packages@;
                let ghost tail = rest@;
                packages.push(p);
                packages.append(&mut rest);
                assert(packages@ =~= before.push(orig[i as int]) + tail);
                assert(fails(p0, pol));
                assert(fails(orig[i as int], pol));
                assert forall|j: int| i <= j < n implies #[trigger] packages@[j] == orig[j] by {
                    if j > i {
                        assert(packages@[j] == orig.subrange(i + 1, n as int)[j - i - 1]);
                    }
                }
                assert(forall|j: int| 0 <= j < i ==> packages@[j] == before[j]);
                return Err(err);
            },
        }
        i = i + 1;
    }
    Ok(())
}

#[verifier::external_type_specification]
#[verifier::external_body]
pub struct ExStore(spdx::detection::Store);

/// Relies on spdx::detection::Store::load_inline: decodes the corpus of
/// license texts built into the spdx crate; `None` when that fails.
#[verifier::external_body]
fn load_inline_store() -> (r: Option<spdx::detection::Store>) {
    spdx::detection::Store::load_inline().ok()
}

/// The names of the licenses that a store holds.
pub uninterp spec fn store_names(s: spdx::detection::Store) -> Set<Seq<char>>;

/// Relies on spdx::detection::Store::analyze: the name of the store's license
/// that scores highest against the text, always one of the store's licenses.
/// Which of several equal scores wins is not fixed, so nothing more is
/// stated of the result.
#[verifier::external_body]
fn store_best_match(store: &spdx::detection::Store, text: &str) -> (r: String)
    ensures
        store_names(*store).contains(r@),
{
    store.analyze(&spdx::detection::TextData::from(text)).name.to_owned()
}

/// The reference corpus of canonical license texts, loaded once and only
/// read afterwards.
pub struct Corpus {
    store: spdx::detection::Store,
}

/// Loads the reference corpus; `CorpusUnavailable` when it cannot be loaded.
pub fn license_store_from_cache() -> (r: Result<Corpus, LicenseError>)
    ensures
        r is Err ==> r matches Err(LicenseError::CorpusUnavailable),
{
    match load_inline_store() {
        Some(store) => Ok(Corpus { store }),
        None => Err(LicenseError::CorpusUnavailable),
    }
}

impl Corpus {
    /// The identifiers of the licenses in the corpus.
    pub closed spec fn names(&self) -> Set<Seq<char>> {
        store_names(self.store)
    }

    /// The identifier of the corpus license that best matches `text`.
    pub fn analyze(&self, text: &str) -> (r: String)
        ensures
            self.names().contains(r@),
    {
        store_best_match(&self.store, text)
    }
}

/// `g` is `f` with an identifier from `names` filled in when `f` had none.
pub open spec fn classified(f: LicenseFile, g: LicenseFile, names: Set<Seq<char>>) -> bool {
    &&& g.name == f.name
    &&& g.text == f.text
    &&& g.spdx is Some
    &&& f.spdx is Some ==> g.spdx == f.spdx
    &&& f.spdx is None ==> names.contains(g.spdx->Some_0@)
}

/// `q` is `p` with each of its unclassified files classified from `names`.
pub open spec fn augmented(p: Package, q: Package, names: Set<Seq<char>>) -> bool {
    &&& q.package_name == p.package_name
    &&& q.package_version == p.package_version
    &&& q.package_url == p.package_url
    &&& q.license_spdx == p.license_spdx
    &&& q.license_files.len() == p.license_files.len()
    &&& forall|k: int| 0 <= k < p.license_files.len() ==>
        classified(#[trigger] p.license_files@[k], q.license_files@[k], names)
}

fn classify_files(files: &mut Vec<LicenseFile>, corpus: &Corpus)
    ensures
        final(files).len() == old(files).len(),
        forall|k: int| 0 <= k < old(files).len() ==> classified(#[trigger] old(files)@[k], final(files)@[k], corpus.names()),
{
    let mut rest: Vec<LicenseFile> = Vec::new();
    std::mem::swap(files, &mut rest);
    let ghost orig = rest@;
    let len: usize = rest.len();
    let ghost n = len as nat;
    let mut i: usize = 0;
    while rest.len() > 0
        invariant
            0 <= i <= n,
            n == orig.len(),
            n <= usize::MAX,
            orig == old(files)@,
            rest@ == orig.subrange(i as int, n as int),
            files@.len() == i,
            forall|k: int| 0 <= k < i ==> classified(#[trigger] orig[k], files@[k], corpus.names()),
        decreases rest.len(),
    {
        let mut f = rest.remove(0);
        assert(f == orig[i as int]);
        assert(rest@ =~= orig.subrange(i + 1, n as int));
        if f.spdx.is_none() {
            let id = corpus.analyze(f.text.as_str());
            f.spdx = Some(id);
        }
        files.push(f);
        i = i + 1;
    }
}

/// Fills in, from the corpus, the identifier of every license file that has
/// none; everything else is left as it was.
pub fn augment_licenses(packages: &mut Vec<Package>, corpus: &Corpus)
    ensures
        final(packages).len() == old(packages).len(),
        forall|i: int| 0 <= i < old(packages).len() ==> augmented(#[trigger] old(packages)@[i], final(packages)@[i], corpus.names()),
{
    let mut rest: Vec<Package> = Vec::new();
    std::mem::swap(packages, &mut rest);
    let ghost orig = rest@;
    let len: usize = rest.len();
    let ghost n = len as nat;
    let mut i: usize = 0;
    while rest.len() > 0
        invariant
            0 <= i <= n,
            n == orig.len(),
            n <= usize::MAX,
            orig == old(packages)@,
            rest@ == orig.subrange(i as int, n as int),
            packages@.len() == i,
            forall|k: int| 0 <= k < i ==> augmented(#[trigger] orig[k], packages@[k], corpus.names()),
        decreases rest.len(),
    {
        let mut p = rest.remove(0);
        assert(p == orig[i as int]);
        assert(rest@ =~= orig.subrange(i + 1, n as int));
        classify_files(&mut p.license_files, corpus);
        packages.push(p);
        i = i + 1;
    }
}

} // verus!
