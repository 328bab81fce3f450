//! Locus catalog: loading locus definitions (motif and reference region)
//! from a structured JSON document, with an optional regular-expression
//! filter over locus identifiers.

use vstd::prelude::*;
use std::collections::HashMap;
use crate::StrifError;

verus! {

#[verifier::external_type_specification]
#[verifier::external_body]
pub struct ExRegex(regex::bytes::Regex);

#[verifier::external_type_specification]
#[verifier::external_body]
pub struct ExRegexError(regex::Error);

#[verifier::external_type_specification]
#[verifier::external_body]
pub struct ExJsonError(serde_json::Error);

/// Whether the regex crate accepts `pat` as a pattern; a function of the
/// pattern text alone.
pub uninterp spec fn regex_compiles(pat: Seq<char>) -> bool;

/// Whether the pattern `pat` matches somewhere in `text`; a function of the
/// pattern and the text alone.
pub uninterp spec fn regex_match(pat: Seq<char>, text: Seq<u8>) -> bool;

/// A compiled locus-identifier filter: a regular expression built once and
/// passed into the operations that consult it.
pub struct LocusFilter {
    re: regex::bytes::Regex,
    pattern: String,
}

/// Relies on regex::bytes::Regex::new: compilation succeeds exactly for the
/// patterns the regex crate accepts, and the returned filter holds the
/// compiled form of `pattern`.
#[verifier::external_body]
fn compile_filter(pattern: &str) -> (r: Result<LocusFilter, regex::Error>)
    ensures
        r is Ok <==> regex_compiles(pattern@),
        r is Ok ==> r->Ok_0.pattern@ == pattern@,
{
    regex::bytes::Regex::new(pattern).map(
        |re|
            LocusFilter { re, pattern: pattern.to_string() },
    )
}

/// Relies on regex::bytes::Regex::is_match: a pure function of the compiled
/// pattern and the haystack.  `LocusFilter` values are only built by
/// `compile_filter`, so the stored pattern is the one that was compiled.
#[verifier::external_body]
fn filter_is_match(f: &LocusFilter, text: &Vec<u8>) -> (r: bool)
    ensures
        r == regex_match(f.pattern@, text@),
{
    f.re.is_match(text)
}

impl LocusFilter {
    /// The pattern this filter was compiled from.
    pub closed spec fn pattern_spec(&self) -> Seq<char> {
        self.pattern@
    }

    /// Compile a filter pattern; fails exactly on patterns the regex engine
    /// rejects.
    pub fn new(pattern: &str) -> (r: Result<LocusFilter, StrifError>)
        ensures
            r is Ok <==> regex_compiles(pattern@),
            r is Ok ==> r->Ok_0.pattern_spec() == pattern@,
            r is Err ==> r->Err_0 == StrifError::InvalidFilter,
    {
        match compile_filter(pattern) {
            Ok(f) => Ok(f),
            Err(_) => Err(StrifError::InvalidFilter),
        }
    }

    /// Whether this filter matches the given locus identifier.
    pub fn matches(&self, text: &Vec<u8>) -> (r: bool)
        ensures
            r == regex_match(self.pattern_spec(), text@),
    {
        filter_is_match(self, text)
    }
}

/// The pattern of an optional filter, as an optional spec value.
pub open spec fn filter_pattern(filter: Option<&LocusFilter>) -> Option<Seq<char>> {
    match filter {
        Some(f) => Some(f.pattern_spec()),
        None => None,
    }
}

/// Whether a locus identifier passes an optional filter: no filter retains
/// everything, a filter retains exactly the identifiers it matches.
pub open spec fn filter_passes(pat: Option<Seq<char>>, id: Seq<u8>) -> bool {
    match pat {
        Some(p) => regex_match(p, id),
        None => true,
    }
}

/// One locus of the catalog: its identifier, reference-region descriptor
/// and repeat motif.
pub struct CatalogEntry {
    pub locus_id: Vec<u8>,
    pub reference_region: Vec<u8>,
    pub motif: Vec<u8>,
}

/// First entry of `s` whose locus identifier is `id`.
pub open spec fn lookup_entry(s: Seq<CatalogEntry>, id: Seq<u8>) -> Option<CatalogEntry>
    decreases s.len(),
{
    if s.len() == 0 {
        None
    } else if s[0].locus_id@ == id {
        Some(s[0])
    } else {
        lookup_entry(s.drop_first(), id)
    }
}

pub proof fn lemma_lookup_absent(s: Seq<CatalogEntry>, id: Seq<u8>)
    ensures
        lookup_entry(s, id) is None <==> forall|j: int|
            0 <= j < s.len() ==> (#[trigger] s[j]).locus_id@ != id,
    decreases s.len(),
{
    if s.len() > 0 {
        lemma_lookup_absent(s.drop_first(), id);
        if s[0].locus_id@ != id {
            assert forall|j: int| 0 <= j < s.len() && lookup_entry(s, id) is None implies (
            #[trigger] s[j]).locus_id@ != id by {
                if j > 0 {
                    assert(s.drop_first()[j - 1] == s[j]);
                }
            }
            if forall|j: int| 0 <= j < s.len() ==> (#[trigger] s[j]).locus_id@ != id {
                assert forall|j: int|
                    0 <= j < s.drop_first().len() implies (
                #[trigger] s.drop_first()[j]).locus_id@ != id by {
                    assert(s.drop_first()[j] == s[j + 1]);
                }
            }
        }
    }
}

pub proof fn lemma_lookup_update_hit(s: Seq<CatalogEntry>, k: int, e: CatalogEntry)
    requires
        0 <= k < s.len(),
        forall|j: int| 0 <= j < k ==> (#[trigger] s[j]).locus_id@ != e.locus_id@,
    ensures
        lookup_entry(s.update(k, e), e.locus_id@) == Some(e),
    decreases k,
{
    let t = s.update(k, e);
    if k == 0 {
        assert(t[0] == e);
    } else {
        assert(t[0] == s[0]);
        assert(t[0].locus_id@ != e.locus_id@);
        assert(t.drop_first() =~= s.drop_first().update(k - 1, e));
        assert forall|j: int| 0 <= j < k - 1 implies (
        #[trigger] s.drop_first()[j]).locus_id@ != e.locus_id@ by {
            assert(s.drop_first()[j] == s[j + 1]);
        }
        lemma_lookup_update_hit(s.drop_first(), k - 1, e);
    }
}

pub proof fn lemma_lookup_update_other(s: Seq<CatalogEntry>, k: int, e: CatalogEntry, id: Seq<u8>)
    requires
        0 <= k < s.len(),
        s[k].locus_id@ == e.locus_id@,
        id != e.locus_id@,
    ensures
        lookup_entry(s.update(k, e), id) == lookup_entry(s, id),
    decreases k,
{
    let t = s.update(k, e);
    if k == 0 {
        assert(t[0] == e);
        assert(t.drop_first() =~= s.drop_first());
    } else {
        assert(t[0] == s[0]);
        if s[0].locus_id@ != id {
            assert(t.drop_first() =~= s.drop_first().update(k - 1, e));
            lemma_lookup_update_other(s.drop_first(), k - 1, e, id);
        }
    }
}

pub proof fn lemma_lookup_push(s: Seq<CatalogEntry>, e: CatalogEntry, id: Seq<u8>)
    ensures
        lookup_entry(s.push(e), id) == if lookup_entry(s, id) is Some {
            lookup_entry(s, id)
        } else if e.locus_id@ == id {
            Some(e)
        } else {
            None
        },
    decreases s.len(),
{
    if s.len() == 0 {
        assert(s.push(e)[0] == e);
        assert(s.push(e).drop_first() =~= Seq::<CatalogEntry>::empty());
    } else {
        assert(s.push(e)[0] == s[0]);
        assert(s.push(e).drop_first() =~= s.drop_first().push(e));
        lemma_lookup_push(s.drop_first(), e, id);
    }
}

/// No two entries of `s` share a locus identifier.
pub open spec fn unique_ids(s: Seq<CatalogEntry>) -> bool {
    forall|i: int, j: int|
        0 <= i < j < s.len() ==> (#[trigger] s[i]).locus_id@ != (#[trigger] s[j]).locus_id@
}

/// The locus catalog: a list of entries uniquely keyed by locus identifier.
pub struct Catalog {
    pub entries: Vec<CatalogEntry>,
}

impl Catalog {
    /// Unique keying: no two entries share a locus identifier.
    pub open spec fn wf(&self) -> bool {
        unique_ids(self.entries@)
    }

    pub fn new() -> (r: Catalog)
        ensures
            r.wf(),
            r.entries@.len() == 0,
    {
        Catalog { entries: Vec::new() }
    }

    /// Entry for `id`, if the catalog holds one.
    pub fn lookup(&self, id: &Vec<u8>) -> (r: Option<&CatalogEntry>)
        ensures
            match r {
                Some(e) => lookup_entry(self.entries@, id@) == Some(*e),
                None => lookup_entry(self.entries@, id@) is None,
            },
    {
        let n = self.entries.len();
        let mut i: usize = 0;
        proof {
            assert(self.entries@.skip(0) =~= self.entries@);
        }
        while i < n
            invariant
                i <= n == self.entries@.len(),
                lookup_entry(self.entries@, id@) == lookup_entry(
                    self.entries@.skip(i as int),
                    id@,
                ),
            decreases n - i,
        {
            proof {
                assert(self.entries@.skip(i as int)[0] == self.entries@[i as int]);
                assert(self.entries@.skip(i as int).drop_first() =~= self.entries@.skip(
                    i as int + 1,
                ));
            }
            if crate::bytesutil::bytes_eq(&self.entries[i].locus_id, id) {
                return Some(&self.entries[i]);
            }
            i += 1;
        }
        None
    }

    /// Add `e`, replacing any existing entry with the same locus identifier
    /// (the catalog keeps one entry per locus; a later record wins).
    pub fn insert(&mut self, e: CatalogEntry)
        requires
            old(self).wf(),
        ensures
            final(self).wf(),
            lookup_entry(final(self).entries@, e.locus_id@) == Some(e),
            forall|id: Seq<u8>|
                id != e.locus_id@ ==> lookup_entry(final(self).entries@, id) == lookup_entry(
                    old(self).entries@,
                    id,
                ),
            forall|j: int|
                0 <= j < final(self).entries@.len() ==> final(self).entries@[j] == e || old(
                    self,
                ).entries@.contains(#[trigger] final(self).entries@[j]),
    {
        let ghost olds = self.entries@;
        let n = self.entries.len();
        let mut i: usize = 0;
        while i < n
            invariant
                i <= n == self.entries@.len(),
                self.entries@ == olds,
                olds == old(self).entries@,
                unique_ids(olds),
                forall|j: int| 0 <= j < i ==> (#[trigger] olds[j]).locus_id@ != e.locus_id@,
            decreases n - i,
        {
            if crate::bytesutil::bytes_eq(&self.entries[i].locus_id, &e.locus_id) {
                self.entries[i] = e;
                proof {
                    assert(self.entries@ =~= olds.update(i as int, e));
                    lemma_lookup_update_hit(olds, i as int, e);
                    assert(lookup_entry(self.entries@, e.locus_id@) == Some(e));
                    assert forall|id: Seq<u8>| id != e.locus_id@ implies #[trigger] lookup_entry(
                        self.entries@,
                        id,
                    ) == lookup_entry(old(self).entries@, id) by {
                        lemma_lookup_update_other(olds, i as int, e, id);
                        assert(lookup_entry(self.entries@, id) == lookup_entry(
                            olds.update(i as int, e),
                            id,
                        ));
                        assert(lookup_entry(old(self).entries@, id) == lookup_entry(olds, id));
                    }
                    assert(unique_ids(olds));
                    assert forall|a: int, b: int|
                        0 <= a < b < self.entries@.len() implies (
                    #[trigger] self.entries@[a]).locus_id@ != (
                    #[trigger] self.entries@[b]).locus_id@ by {
                        assert(olds[a].locus_id@ != olds[b].locus_id@);
                        if a != i {
                            assert(self.entries@[a] == olds[a]);
                        }
                        if b != i {
                            assert(self.entries@[b] == olds[b]);
                        }
                    }
                    assert(unique_ids(self.entries@));
                    assert forall|j: int| 0 <= j < self.entries@.len() implies self.entries@[j]
                        == e || olds.contains(#[trigger] self.entries@[j]) by {
                        if j != i {
                            assert(self.entries@[j] == olds[j]);
                        }
                    }
                }
                return ;
            }
            i += 1;
        }
        proof {
            lemma_lookup_absent(olds, e.locus_id@);
            assert(lookup_entry(olds, e.locus_id@) is None);
            assert forall|id: Seq<u8>| id != e.locus_id@ implies lookup_entry(
                olds.push(e),
                id,
            ) == lookup_entry(olds, id) by {
                lemma_lookup_push(olds, e, id);
            }
            lemma_lookup_push(olds, e, e.locus_id@);
        }
        self.entries.push(e);
        proof {
            assert forall|j: int| 0 <= j < self.entries@.len() implies self.entries@[j] == e
                || olds.contains(#[trigger] self.entries@[j]) by {
                if j < olds.len() {
                    assert(self.entries@[j] == olds[j]);
                }
            }
        }
    }
}

/// An optional byte value, as its optional view.
pub open spec fn opt_bytes_view(o: Option<Vec<u8>>) -> Option<Seq<u8>> {
    match o {
        Some(v) => Some(v@),
        None => None,
    }
}

/// The three fields of each record of the catalog document, under the
/// given key names, or nothing if the document is not an array of
/// string-to-string records; a function of the document and key texts
/// alone.
pub uninterp spec fn catalog_fields_of(
    doc: Seq<u8>,
    id_key: Seq<char>,
    region_key: Seq<char>,
    structure_key: Seq<char>,
) -> Option<Seq<(Option<Seq<u8>>, Option<Seq<u8>>, Option<Seq<u8>>)>>;

/// The fields of one catalog record, each absent when the record lacks
/// the key.
pub struct CatalogRecordFields {
    pub locus_id: Option<Vec<u8>>,
    pub reference_region: Option<Vec<u8>>,
    pub structure: Option<Vec<u8>>,
}

/// Relies on serde_json::from_slice: it parses the document as a JSON
/// array of string-to-string records, failing on any other shape, as a
/// function of the document alone; each record's fields under the three
/// keys are copied out as bytes (std HashMap::get for the lookups).
#[verifier::external_body]
fn parse_catalog_fields(doc: &Vec<u8>, id_key: &str, region_key: &str, structure_key: &str) -> (r:
    Result<Vec<CatalogRecordFields>, serde_json::Error>)
    ensures
        r is Ok <==> catalog_fields_of(doc@, id_key@, region_key@, structure_key@) is Some,
        r matches Ok(v) ==> {
            let recs = catalog_fields_of(doc@, id_key@, region_key@, structure_key@)->0;
            v@.len() == recs.len() && forall|j: int|
                0 <= j < v@.len() ==> opt_bytes_view((#[trigger] v@[j]).locus_id) == recs[j].0
                    && opt_bytes_view(v@[j].reference_region) == recs[j].1 && opt_bytes_view(
                    v@[j].structure,
                ) == recs[j].2
        },
{
    let records: Vec<HashMap<String, String>> = serde_json::from_slice(doc)?;
    Ok(records.into_iter().map(|m| CatalogRecordFields {
        locus_id: m.get(id_key).map(|v| v.clone().into_bytes()),
        reference_region: m.get(region_key).map(|v| v.clone().into_bytes()),
        structure: m.get(structure_key).map(|v| v.clone().into_bytes()),
    }).collect())
}

/// Copy an optional byte value.
fn clone_opt_bytes(o: &Option<Vec<u8>>) -> (r: Option<Vec<u8>>)
    ensures
        opt_bytes_view(r) == opt_bytes_view(*o),
{
    match o {
        Some(v) => {
            let c = crate::bytesutil::sub_bytes(v, 0, v.len());
            proof {
                assert(c@ =~= v@);
            }
            Some(c)
        },
        None => None,
    }
}

/// Whether a record is retained: it has an identifier and the identifier
/// passes the filter.
pub open spec fn record_retained(
    rec: (Option<Seq<u8>>, Option<Seq<u8>>, Option<Seq<u8>>),
    pat: Option<Seq<char>>,
) -> bool {
    rec.0 is Some && filter_passes(pat, rec.0->0)
}

/// Whether a record loads without a fatal error: it has an identifier,
/// and, if retained, its other fields are present and its structure is
/// long enough to strip.
pub open spec fn record_ok(
    rec: (Option<Seq<u8>>, Option<Seq<u8>>, Option<Seq<u8>>),
    pat: Option<Seq<char>>,
) -> bool {
    rec.0 is Some && (!filter_passes(pat, rec.0->0) || (rec.1 is Some && rec.2 is Some
        && rec.2->0.len() >= 3))
}

/// The motif a record's structure denotes: the structure with its leading
/// delimiter and trailing delimiter pair stripped.
pub open spec fn record_motif(rec: (Option<Seq<u8>>, Option<Seq<u8>>, Option<Seq<u8>>)) -> Seq<
    u8,
> {
    rec.2->0.subrange(1, rec.2->0.len() - 2)
}

/// The (reference region, motif) the catalog holds for `id` after loading
/// `recs` in order: the last retained record with that identifier wins.
pub open spec fn catalog_fold(
    recs: Seq<(Option<Seq<u8>>, Option<Seq<u8>>, Option<Seq<u8>>)>,
    pat: Option<Seq<char>>,
    id: Seq<u8>,
) -> Option<(Seq<u8>, Seq<u8>)>
    decreases recs.len(),
{
    if recs.len() == 0 {
        None
    } else if record_retained(recs.last(), pat) && recs.last().0->0 == id {
        Some((recs.last().1->0, record_motif(recs.last())))
    } else {
        catalog_fold(recs.drop_last(), pat, id)
    }
}

/// Build one catalog entry from the fields of one record, honoring the
/// optional filter: a missing identifier is fatal; a record whose
/// identifier fails the filter is dropped before its other fields are
/// looked at; a missing reference region or structure, or a structure too
/// short to strip the two-character wrapper, is fatal; otherwise the motif
/// is the structure with its leading delimiter and trailing delimiter pair
/// stripped.
pub fn catalog_entry_from_fields(
    locus_id: Option<Vec<u8>>,
    reference_region: Option<Vec<u8>>,
    structure: Option<Vec<u8>>,
    filter: Option<&LocusFilter>,
) -> (r: Result<Option<CatalogEntry>, StrifError>)
    ensures
        locus_id is None ==> r == Err::<Option<CatalogEntry>, StrifError>(
            StrifError::MalformedCatalogEntry,
        ),
        locus_id is Some && !filter_passes(filter_pattern(filter), locus_id->0@) ==> r == Ok::<
            Option<CatalogEntry>,
            StrifError,
        >(None),
        locus_id is Some && filter_passes(filter_pattern(filter), locus_id->0@) && (
        reference_region is None || structure is None || structure->0@.len() < 3) ==> r == Err::<
            Option<CatalogEntry>,
            StrifError,
        >(StrifError::MalformedCatalogEntry),
        locus_id is Some && filter_passes(filter_pattern(filter), locus_id->0@)
            && reference_region is Some && structure is Some && structure->0@.len() >= 3 ==> match r {
            Ok(Some(e)) => e.locus_id@ == locus_id->0@ && e.reference_region@
                == reference_region->0@ && e.motif@ == structure->0@.subrange(
                1,
                structure->0@.len() - 2,
            ),
            _ => false,
        },
{
    let id = match locus_id {
        Some(id) => id,
        None => {
            return Err(StrifError::MalformedCatalogEntry);
        },
    };
    if let Some(f) = filter {
        if !f.matches(&id) {
            return Ok(None);
        }
    }
    let rr = match reference_region {
        Some(rr) => rr,
        None => {
            return Err(StrifError::MalformedCatalogEntry);
        },
    };
    let st = match structure {
        Some(st) => st,
        None => {
            return Err(StrifError::MalformedCatalogEntry);
        },
    };
    if st.len() < 3 {
        return Err(StrifError::MalformedCatalogEntry);
    }
    let motif = crate::bytesutil::sub_bytes(&st, 1, st.len() - 2);
    Ok(Some(CatalogEntry { locus_id: id, reference_region: rr, motif }))
}

/// Load the locus catalog from a JSON document: one entry per retained
/// record, keyed by locus identifier (a later record for the same locus
/// wins), with the motif stripped out of the locus-structure string.
/// Fails with `MalformedCatalog` exactly when the document does not parse
/// as an array of string records, and with `MalformedCatalogEntry` exactly
/// when some record lacks its identifier or a retained record lacks a
/// field or has a structure too short to strip.
pub fn load_str_catalog(doc: &Vec<u8>, filter: Option<&LocusFilter>) -> (r: Result<
    Catalog,
    StrifError,
>)
    ensures
        ({
            let pat = filter_pattern(filter);
            let recs_opt = catalog_fields_of(
                doc@,
                "LocusId"@,
                "ReferenceRegion"@,
                "LocusStructure"@,
            );
            &&& (r == Err::<Catalog, StrifError>(StrifError::MalformedCatalog) <==> recs_opt
                is None)
            &&& recs_opt matches Some(recs) ==> {
                &&& (r is Ok <==> forall|j: int|
                    0 <= j < recs.len() ==> record_ok(#[trigger] recs[j], pat))
                &&& (r is Err ==> r == Err::<Catalog, StrifError>(
                    StrifError::MalformedCatalogEntry,
                ))
            }
            &&& r matches Ok(c) ==> {
                let recs = recs_opt->0;
                &&& c.wf()
                &&& forall|j: int|
                    0 <= j < c.entries@.len() ==> filter_passes(
                        pat,
                        (#[trigger] c.entries@[j]).locus_id@,
                    )
                &&& forall|id: Seq<u8>|
                    {
                        &&& (#[trigger] lookup_entry(c.entries@, id) is Some <==> catalog_fold(
                            recs,
                            pat,
                            id,
                        ) is Some)
                        &&& (lookup_entry(c.entries@, id) matches Some(e) ==> e.locus_id@ == id
                            && Some((e.reference_region@, e.motif@)) == catalog_fold(
                            recs,
                            pat,
                            id,
                        ))
                    }
            }
        }),
{
    let ghost pat = filter_pattern(filter);
    let records = match parse_catalog_fields(doc, "LocusId", "ReferenceRegion", "LocusStructure") {
        Ok(v) => v,
        Err(_) => {
            return Err(StrifError::MalformedCatalog);
        },
    };
    let ghost recs = catalog_fields_of(doc@, "LocusId"@, "ReferenceRegion"@, "LocusStructure"@)->0;
    let mut catalog = Catalog::new();
    let mut i: usize = 0;
    proof {
        assert(recs.take(0) =~= Seq::<(Option<Seq<u8>>, Option<Seq<u8>>, Option<Seq<u8>>)>::empty());
    }
    while i < records.len()
        invariant
            i <= records@.len(),
            records@.len() == recs.len(),
            pat == filter_pattern(filter),
            catalog_fields_of(doc@, "LocusId"@, "ReferenceRegion"@, "LocusStructure"@) is Some,
            recs == catalog_fields_of(doc@, "LocusId"@, "ReferenceRegion"@, "LocusStructure"@)->0,
            forall|j: int|
                0 <= j < records@.len() ==> opt_bytes_view((#[trigger] records@[j]).locus_id)
                    == recs[j].0 && opt_bytes_view(records@[j].reference_region) == recs[j].1
                    && opt_bytes_view(records@[j].structure) == recs[j].2,
            forall|j: int| 0 <= j < i ==> record_ok(#[trigger] recs[j], pat),
            catalog.wf(),
            forall|j: int|
                0 <= j < catalog.entries@.len() ==> filter_passes(
                    pat,
                    (#[trigger] catalog.entries@[j]).locus_id@,
                ),
            forall|id: Seq<u8>|
                {
                    &&& (#[trigger] lookup_entry(catalog.entries@, id) is Some <==> catalog_fold(
                        recs.take(i as int),
                        pat,
                        id,
                    ) is Some)
                    &&& (lookup_entry(catalog.entries@, id) matches Some(e) ==> e.locus_id@ == id
                        && Some((e.reference_region@, e.motif@)) == catalog_fold(
                        recs.take(i as int),
                        pat,
                        id,
                    ))
                },
        decreases records@.len() - i,
    {
        proof {
            assert(recs.take(i as int + 1).drop_last() =~= recs.take(i as int));
            assert(recs.take(i as int + 1).last() == recs[i as int]);
        }
        let locus_id = clone_opt_bytes(&records[i].locus_id);
        let reference_region = clone_opt_bytes(&records[i].reference_region);
        let structure = clone_opt_bytes(&records[i].structure);
        match catalog_entry_from_fields(locus_id, reference_region, structure, filter) {
            Ok(Some(e)) => {
                let ghost olde = catalog.entries@;
                proof {
                    assert(record_retained(recs[i as int], pat));
                    assert(e.locus_id@ == recs[i as int].0->0);
                    assert(e.reference_region@ == recs[i as int].1->0);
                    assert(e.motif@ == record_motif(recs[i as int]));
                }
                catalog.insert(e);
                proof {
                    assert forall|j: int| 0 <= j < catalog.entries@.len() implies filter_passes(
                        pat,
                        (#[trigger] catalog.entries@[j]).locus_id@,
                    ) by {
                        if catalog.entries@[j] != e {
                            assert(olde.contains(catalog.entries@[j]));
                            let w = choose|w: int|
                                0 <= w < olde.len() && olde[w] == catalog.entries@[j];
                            assert(filter_passes(pat, olde[w].locus_id@));
                        }
                    }
                    assert forall|id: Seq<u8>|
                        {
                            &&& (#[trigger] lookup_entry(catalog.entries@, id)
                                is Some <==> catalog_fold(recs.take(i as int + 1), pat, id)
                                is Some)
                            &&& (lookup_entry(catalog.entries@, id) matches Some(e2)
                                ==> e2.locus_id@ == id && Some((e2.reference_region@, e2.motif@))
                                == catalog_fold(recs.take(i as int + 1), pat, id))
                        } by {
                        if id == e.locus_id@ {
                            assert(lookup_entry(catalog.entries@, id) == Some(e));
                            assert(catalog_fold(recs.take(i as int + 1), pat, id) == Some(
                                (recs[i as int].1->0, record_motif(recs[i as int])),
                            ));
                        } else {
                            assert(lookup_entry(catalog.entries@, id) == lookup_entry(olde, id));
                            assert(catalog_fold(recs.take(i as int + 1), pat, id) == catalog_fold(
                                recs.take(i as int),
                                pat,
                                id,
                            ));
                        }
                    }
                }
            },
            Ok(None) => {
                proof {
                    assert(recs[i as int].0 is Some && !filter_passes(pat, recs[i as int].0->0));
                    assert(!record_retained(recs[i as int], pat));
                    assert forall|id: Seq<u8>|
                        #[trigger] catalog_fold(recs.take(i as int + 1), pat, id) == catalog_fold(
                            recs.take(i as int),
                            pat,
                            id,
                        ) by {}
                }
            },
            Err(_) => {
                proof {
                    assert(!record_ok(recs[i as int], pat));
                }
                return Err(StrifError::MalformedCatalogEntry);
            },
        }
        i += 1;
    }
    proof {
        assert(recs.take(records@.len() as int) =~= recs);
    }
    Ok(catalog)
}

} // verus!
