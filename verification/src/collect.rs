//! Building the catalog of a document.

use vstd::prelude::*;
use crate::catalog::catalog_matches;
use crate::catalog::catalog_model;
use crate::catalog::is_catalog_of;
use crate::catalog::key_lt;
use crate::catalog::lemma_catalog_insert;
use crate::catalog::lemma_catalog_update;
use crate::catalog::lemma_key_lt_total;
use crate::dependency::BucketKey;
use crate::dependency::Dependency;
use crate::dependency::KindTable;
use crate::document::MetadataDocument;
use crate::epoch::Epoch;
use crate::error::CollectError;
use crate::names::merge_names;
use crate::text::name_equal;
use crate::text::name_less;
use crate::text::names_of;

verus! {

impl Dependency {
    /// Says whether the entry's bucket comes strictly before the bucket of
    /// `name` and `epoch`.
    pub fn precedes(&self, name: &str, epoch: &Epoch) -> (r: bool)
        ensures
            r == key_lt(self.key(), BucketKey { name: name@, epoch: epoch@ }),
    {
        if name_less(self.package_name.as_str(), name) {
            true
        } else if name_equal(self.package_name.as_str(), name) {
            self.epoch.precedes(epoch)
        } else {
            false
        }
    }

    /// Says whether the entry stands for the bucket of `name` and `epoch`.
    pub fn is_for(&self, name: &str, epoch: &Epoch) -> (r: bool)
        ensures
            r == (self.key() == BucketKey { name: name@, epoch: epoch@ }),
    {
        name_equal(self.package_name.as_str(), name) && self.epoch.same(epoch)
    }
}

/// Finds the place of a bucket in a sorted catalog: the index of the first
/// entry that does not come before it.
pub fn locate(catalog: &Vec<Dependency>, name: &str, epoch: &Epoch) -> (pos: usize)
    ensures
        pos <= catalog@.len(),
        forall|a: int|
            0 <= a < pos ==> key_lt(
                (#[trigger] catalog@[a]).key(),
                BucketKey { name: name@, epoch: epoch@ },
            ),
        pos < catalog@.len() ==> !key_lt(
            catalog@[pos as int].key(),
            BucketKey { name: name@, epoch: epoch@ },
        ),
{
    let mut pos: usize = 0;
    while pos < catalog.len() && catalog[pos].precedes(name, epoch)
        invariant
            pos <= catalog@.len(),
            forall|a: int|
                0 <= a < pos ==> key_lt(
                    (#[trigger] catalog@[a]).key(),
                    BucketKey { name: name@, epoch: epoch@ },
                ),
        decreases catalog@.len() - pos,
    {
        pos += 1;
    }
    pos
}

/// Builds the catalog of a document.
///
/// The edges are taken in order. The first defective edge, if there is one,
/// decides the error, and no catalog is returned. Otherwise the result is
/// the catalog of all edges: one entry per bucket, in ascending order of
/// package name and epoch, each with the sorted union of the features
/// activated in every build phase in which the package is needed, and with
/// the package's version and its declared features in ascending order.
pub fn collect_dependencies(doc: &MetadataDocument) -> (r: Result<Vec<Dependency>, CollectError>)
    ensures
        match r {
            Ok(catalog) => doc@.first_defect(0) is None && is_catalog_of(
                doc@,
                catalog_model(catalog@),
            ),
            Err(e) => doc@.first_defect(0) == Some(e@),
        },
{
    let mut catalog: Vec<Dependency> = Vec::new();
    let mut i: usize = 0;
    while i < doc.edges.len()
        invariant
            i <= doc.edges@.len(),
            doc@.edges.len() == doc.edges@.len(),
            doc@.first_defect(0) == doc@.first_defect(i as int),
            catalog_matches(doc@, i as int, catalog_model(catalog@)),
        decreases doc.edges@.len() - i,
    {
        let edge = &doc.edges[i];
        let ghost cat = catalog_model(catalog@);
        assert(doc@.edges[i as int] == edge@);
        let package = match doc.find_package(edge.target.as_str()) {
            Some(p) => p,
            None => {
                return Err(CollectError::UnknownPackage { package_id: edge.target.clone() });
            },
        };
        let epoch = match Epoch::from_version(package.version.as_str()) {
            Ok(e) => e,
            Err(_) => {
                return Err(CollectError::MalformedVersion { package_id: edge.target.clone() });
            },
        };
        let ghost key = BucketKey { name: package.name@, epoch: epoch@ };
        assert(doc@.bucket(i as int) == Some(key));
        let pos = locate(&catalog, package.name.as_str(), &epoch);
        let found = pos < catalog.len() && catalog[pos].is_for(package.name.as_str(), &epoch);
        let mut entry = if found {
            assert(cat[pos as int] == catalog@[pos as int]@);
            if !name_equal(catalog[pos].version.as_str(), package.version.as_str()) {
                return Err(
                    CollectError::ConflictingVersions {
                        package_name: package.name.clone(),
                        first: catalog[pos].version.clone(),
                        second: package.version.clone(),
                    },
                );
            }
            catalog.remove(pos)
        } else {
            proof {
                assert forall|a: int| 0 <= a < pos implies key_lt(
                    (#[trigger] cat[a]).key(),
                    key,
                ) by {
                    assert(cat[a] == catalog@[a]@);
                }
                if pos < cat.len() {
                    assert(cat[pos as int] == catalog@[pos as int]@);
                    lemma_key_lt_total(key, cat[pos as int].key());
                }
            }
            let mut declared: Vec<String> = Vec::new();
            merge_names(&mut declared, &package.features);
            assert(names_of(declared@).to_set() =~= package@.features.to_set());
            Dependency {
                package_name: package.name.clone(),
                epoch,
                version: package.version.clone(),
                features: declared,
                dependency_kinds: KindTable::new(),
            }
        };
        entry.absorb(edge);
        proof {
            if found {
                lemma_catalog_update(doc@, i as int, cat, pos as int, entry@);
            } else {
                lemma_catalog_insert(doc@, i as int, cat, pos as int, entry@);
            }
        }
        let ghost grown = entry@;
        catalog.insert(pos, entry);
        proof {
            let next = catalog_model(catalog@);
            if found {
                assert(next =~= cat.update(pos as int, grown));
            } else {
                assert(next =~= cat.insert(pos as int, grown));
            }
        }
        i += 1;
    }
    Ok(catalog)
}

} // verus!
