use serde_json::Value;
use sha2::{Digest, Sha256};
use skarve::cancel::Fixed;
use skarve::canonical::{canonical_sha256, comes_before, Document};
use skarve::error::Error;
use skarve::model::Grid;
use skarve::profile_request::{
    check_query, check_selected, eligible, request_facts, reserve_execution, route_profile,
    select_role,
    OrderedPolygon, OrderedRequest, OrderedWindow, ProfileQuery, Role, Sizes,
};
use skarve::profile_text::{expected_view_sha256, interpretation_sha256, selector_sha256};
use skarve::serving_profile::{
    bounded_label, candidate_valid, expected_view, Attestation, Candidate, Eligibility,
    ObjectAttestation, ServingProfile, SizeCounter, MAX_PROFILE_BYTES, SCHEMA,
};
use skarve::source::{
    ContentIdentity, HttpOptions, RawBandMetadata, RawRasterMetadata, RawScalarType, SourceFormat,
    SourceSpec, VerificationPolicy,
};

const NO: Fixed = Fixed { requested: false };
const POLICY: &str = "ordered_policy";

fn digest(text: &str) -> String {
    let value: Value = serde_json::from_str(text).unwrap();
    let bytes = Sha256::digest(value.to_string().as_bytes());
    bytes.iter().map(|b| format!("{b:02x}")).collect()
}

fn grid() -> Grid {
    Grid {
        width: 40,
        height: 30,
        transform_bits: [0f64, 1., 0., 30., 0., -1.].map(f64::to_bits),
        crs: "LO\"CAL".to_owned(),
    }
}

fn raw(index: usize) -> RawRasterMetadata {
    RawRasterMetadata {
        bands: vec![RawBandMetadata {
            scalar_type: RawScalarType::Float32,
            nodata_f64_bits: Some(7f64.to_bits()),
            scale_f64_bits: 1f64.to_bits(),
            offset_f64_bits: 0,
            unit: Some("m\n".to_owned()),
            mask_flags: 8,
            original_band_index: index,
            description: "d".to_owned(),
        }],
        pixel_convention: "Area".to_owned(),
        source_band_count: 4,
        source_overview: None,
    }
}

fn spec() -> SourceSpec {
    SourceSpec {
        location: "/data/a.tif".to_owned(),
        format: SourceFormat::Geotiff,
        variable: None,
        overview: None,
        crs: Some("EPSG:1".to_owned()),
        longitude_shift: 0,
        bands: Some(vec![2]),
        use_summaries: true,
        identity: Some(ContentIdentity {
            sha256: "a".repeat(64),
            byte_length: 10,
            policy: VerificationPolicy::Verify,
            etag: None,
        }),
        http: HttpOptions::default(),
    }
}

fn candidate() -> Candidate {
    Candidate { spec: spec(), expected: expected_view(&grid(), &raw(2)) }
}

fn pin() -> ObjectAttestation {
    ObjectAttestation {
        sha256: "a".repeat(64),
        byte_length: 10,
        selector_sha256: selector_sha256(&spec()),
        expected_view_sha256: expected_view_sha256(&expected_view(&grid(), &raw(2))),
    }
}

fn rule() -> Eligibility {
    Eligibility {
        enabled: true,
        access_classes: vec!["wan".to_owned()],
        bands: vec![0],
        polygons: [1, 4],
        windows: [1, 4],
        selected_cells: [1, 100],
        envelope_width: [0, 40],
        envelope_height: [0, 30],
        envelope_cells: [0, 1200],
    }
}

fn profile() -> ServingProfile {
    ServingProfile {
        schema: SCHEMA.to_owned(),
        profile_id: "p".to_owned(),
        view_id: "v".to_owned(),
        numerical_policy: POLICY.to_owned(),
        direct: candidate(),
        accelerated: candidate(),
        attestation: Attestation {
            kind: "owner_verified_full_view_v1".to_owned(),
            verifier: "tool".to_owned(),
            receipt_sha256: "b".repeat(64),
            checks: ["mask_bytes", "typed_sample_bits", "full_interpretation"]
                .map(str::to_owned)
                .to_vec(),
            samples_sha256: "c".repeat(64),
            masks_sha256: "d".repeat(64),
            interpretation_sha256: interpretation_sha256(&expected_view(&grid(), &raw(2))),
            cells_per_band: 1200,
            direct: pin(),
            accelerated: pin(),
        },
        accelerated_when: rule(),
    }
}

fn request() -> OrderedRequest {
    OrderedRequest {
        polygons: vec![OrderedPolygon {
            id: "one".to_owned(),
            windows: vec![
                OrderedWindow {
                    window: [2, 3, 4, 5],
                    indexes: Some(vec![0, 3]),
                    runs: None,
                    capacity: 2,
                },
                OrderedWindow {
                    window: [10, 20, 2, 2],
                    indexes: None,
                    runs: Some(vec![[0, 2], [3, 4]]),
                    capacity: 2,
                },
            ],
            id_capacity: 3,
            window_capacity: 2,
        }],
        bands: vec![0],
        overrides_nodata: false,
        planning_bytes: 10_000,
        max_contributions: 100,
        polygon_capacity: 1,
        band_capacity: 1,
    }
}

const SIZES: Sizes = Sizes { request: 100, polygon: 80, band: 8, window: 90, index: 4, run: 8 };

#[test]
fn digests_are_of_compact_text_with_sorted_keys() {
    let view = |index: &str| {
        format!(
            "{{\"raw_metadata\":{{\"pixel_convention\":\"Area\",\"source_band_count\":4,\
             \"source_overview\":null,\"bands\":[{{\"scalar_type\":\"float32\",\
             \"nodata_f64_bits\":\"401c000000000000\",\"scale_f64_bits\":\"3ff0000000000000\",\
             \"offset_f64_bits\":\"0000000000000000\",\"unit\":\"m\\n\",\"mask_flags\":8,\
             {index}\"description\":\"d\"}}]}},\"grid\":{{\"width\":40,\"height\":30,\
             \"transform_f64_bits\":[\"0000000000000000\",\"3ff0000000000000\",\
             \"0000000000000000\",\"403e000000000000\",\"0000000000000000\",\
             \"bff0000000000000\"],\"crs\":\"LO\\\"CAL\"}}}}"
        )
    };
    let shown = expected_view(&grid(), &raw(2));
    assert_eq!(expected_view_sha256(&shown), digest(&view("\"original_band_index\":2,")));
    assert_ne!(expected_view_sha256(&shown), expected_view_sha256(&expected_view(&grid(), &raw(3))));
    assert_eq!(
        interpretation_sha256(&shown),
        interpretation_sha256(&expected_view(&grid(), &raw(3)))
    );
    assert_eq!(
        selector_sha256(&spec()),
        digest(
            "{\"variable\":null,\"format\":\"geotiff\",\"overview\":null,\"crs\":\"EPSG:1\",\
             \"longitude_shift\":0,\"bands\":[2]}"
        )
    );
    let shifted = SourceSpec {
        longitude_shift: -360,
        overview: Some(12),
        bands: None,
        crs: None,
        variable: Some("t".to_owned()),
        format: SourceFormat::Netcdf,
        ..spec()
    };
    assert_eq!(
        selector_sha256(&shifted),
        digest(
            "{\"variable\":\"t\",\"format\":\"netcdf\",\"overview\":12,\"crs\":null,\
             \"longitude_shift\":-360,\"bands\":null}"
        )
    );
}

#[test]
fn a_candidate_is_held_against_what_is_pinned_of_it() {
    let interpretation = interpretation_sha256(&expected_view(&grid(), &raw(2)));
    let check = |c: &Candidate, p: &ObjectAttestation, i: &str| {
        candidate_valid(c, p, i, Ok(())).map(|g| (g.width, g.transform_bits[3]))
    };
    assert_eq!(check(&candidate(), &pin(), &interpretation), Ok((40, 30f64.to_bits())));
    let mut anonymous = candidate();
    anonymous.spec.identity = None;
    assert_eq!(check(&anonymous, &pin(), &interpretation), Err(Error::ProfileIdentity));
    let short = ObjectAttestation { sha256: "a".repeat(63), ..pin() };
    assert_eq!(check(&candidate(), &short, &interpretation), Err(Error::ProfileDigest));
    let longer = ObjectAttestation { byte_length: 11, ..pin() };
    assert_eq!(check(&candidate(), &longer, &interpretation), Err(Error::ProfilePin));
    let selector = ObjectAttestation { selector_sha256: "0".repeat(64), ..pin() };
    assert_eq!(check(&candidate(), &selector, &interpretation), Err(Error::ProfileSelector));
    let view = ObjectAttestation { expected_view_sha256: "0".repeat(64), ..pin() };
    assert_eq!(check(&candidate(), &view, &interpretation), Err(Error::ProfileView));
    assert_eq!(check(&candidate(), &pin(), &"0".repeat(64)), Err(Error::ProfileInterpretation));
    let mut whole = candidate();
    whole.expected.raw_metadata.bands[0].scalar_type = RawScalarType::UInt16;
    assert_eq!(check(&whole, &pin(), &interpretation), Err(Error::ExpectedScalar));
    let mut bits = candidate();
    bits.expected.grid.transform_f64_bits[0] = "00000000000000AB".to_owned();
    assert_eq!(check(&bits, &pin(), &interpretation), Err(Error::ExpectedBits));
}

#[test]
fn a_profile_is_complete_or_refused() {
    let check = |p: &ServingProfile| p.validate(POLICY, Ok(()), Ok(())).map(|g| g.height);
    assert_eq!(check(&profile()), Ok(30));
    let mut p = profile();
    p.schema.push('2');
    assert_eq!(check(&p), Err(Error::ProfileSchema));
    let mut p = profile();
    p.numerical_policy = "other".to_owned();
    assert_eq!(check(&p), Err(Error::ProfileSchema));
    let mut p = profile();
    p.attestation.verifier = "a\tb".to_owned();
    assert_eq!(check(&p), Err(Error::ProfileAttestation));
    let mut p = profile();
    p.attestation.checks[0] = "mask".to_owned();
    assert_eq!(check(&p), Err(Error::ProfileChecks));
    let mut p = profile();
    p.attestation.masks_sha256 = "D".repeat(64);
    assert_eq!(check(&p), Err(Error::ProfileDigest));
    let mut p = profile();
    p.attestation.cells_per_band = 1201;
    assert_eq!(check(&p), Err(Error::ProfileViews));
    let mut p = profile();
    p.accelerated_when.access_classes.push("wan".to_owned());
    assert_eq!(check(&p), Err(Error::ProfileClasses));
    let mut p = profile();
    p.accelerated_when.bands = vec![1];
    assert_eq!(check(&p), Err(Error::ProfileBands));
    let mut p = profile();
    p.accelerated_when.windows = [5, 4];
    assert_eq!(check(&p), Err(Error::ProfileBounds));
    let mut p = profile();
    p.accelerated_when.envelope_cells = [0, 1201];
    assert_eq!(check(&p), Err(Error::ProfileWork));
}

#[test]
fn a_request_is_counted_before_a_source_is_opened() {
    let facts = |r: &OrderedRequest| request_facts(r, 1, 40, 30, SIZES, Ok(0), &NO);
    let counted = facts(&request()).unwrap();
    assert_eq!(counted.selected_bands, vec![0]);
    assert_eq!((counted.polygon_count, counted.window_count), (1, 2));
    assert_eq!((counted.selected_cells, counted.selected_contributions), (5, 5));
    assert_eq!(counted.window_envelope, Some([2, 3, 10, 19]));
    assert_eq!(counted.envelope_cells, 190);
    let mut r = request();
    r.polygons.clear();
    assert_eq!(facts(&r).err(), Some(Error::RequestCount));
    let mut r = request();
    r.bands = vec![1];
    assert_eq!(facts(&r).err(), Some(Error::RequestBands));
    let mut r = request();
    r.overrides_nodata = true;
    assert_eq!(facts(&r).err(), Some(Error::RequestNodata));
    let mut r = request();
    r.polygons[0].windows[0].window = [39, 0, 2, 1];
    assert_eq!(facts(&r).err(), Some(Error::RequestWindow));
    let mut r = request();
    r.polygons[0].windows[0].runs = Some(Vec::new());
    assert_eq!(facts(&r).err(), Some(Error::RequestChoice));
    let mut r = request();
    r.polygons[0].id.clear();
    assert_eq!(facts(&r).err(), Some(Error::RequestPolygon));
    let mut r = request();
    r.planning_bytes = 10;
    assert_eq!(facts(&r).err(), Some(Error::RequestPlanning));
    assert_eq!(
        request_facts(&request(), 1, 40, 30, SIZES, Err(Error::ReadBudget), &NO).err(),
        Some(Error::ReadBudget)
    );
    let stop = Fixed { requested: true };
    assert_eq!(
        request_facts(&request(), 1, 40, 30, SIZES, Ok(0), &stop).err(),
        Some(Error::Cancelled)
    );
}

#[test]
fn the_accelerated_source_serves_eligible_requests_alone() {
    let p = profile();
    let facts = request_facts(&request(), 1, 40, 30, SIZES, Ok(0), &NO).unwrap();
    assert!(eligible(&p.accelerated_when, &facts, "wan"));
    assert_eq!(select_role(&p, &facts, Some("wan")), Role::Accelerated);
    assert_eq!(select_role(&p, &facts, Some("lan")), Role::Direct);
    assert_eq!(select_role(&p, &facts, None), Role::Direct);
    let mut narrow = profile();
    narrow.accelerated_when.selected_cells = [6, 100];
    assert_eq!(select_role(&narrow, &facts, Some("wan")), Role::Direct);
    let mut unequal = profile();
    unequal.attestation.accelerated.byte_length = 12;
    assert_eq!(Role::Accelerated.candidate(&unequal).1.byte_length, 12);
    assert_eq!(Role::Direct.candidate(&unequal).1.byte_length, 10);
}

#[test]
fn a_query_names_the_policy_and_the_view_of_its_profile() {
    let p = profile();
    assert_eq!(check_query(&p, POLICY, POLICY, "v", None), Ok(()));
    assert_eq!(check_query(&p, POLICY, POLICY, "w", None), Err(Error::ProfileQuery));
    assert_eq!(check_query(&p, "new", POLICY, "v", None), Err(Error::ProfileQuery));
    assert_eq!(
        check_query(&p, POLICY, POLICY, "v", Some(&"x".repeat(65))),
        Err(Error::ProfileAccess)
    );
    assert!(bounded_label("wan", 64) && !bounded_label("", 64) && !bounded_label("a\u{7f}", 64));
    let shown = expected_view(&grid(), &raw(2));
    assert_eq!(check_selected(1 << 24, Some(&shown), &pin()), Ok(()));
    assert_eq!(
        check_selected((1 << 24) + 1, Some(&shown), &pin()),
        Err(Error::ProfileRetained)
    );
    assert_eq!(check_selected(0, None, &pin()), Err(Error::ProfileRaw));
    let moved = expected_view(&grid(), &raw(3));
    assert_eq!(check_selected(0, Some(&moved), &pin()), Err(Error::ProfileOpened));
}

#[test]
fn a_profile_reserves_memory_and_has_a_size() {
    assert_eq!(reserve_execution(1, 1 << 30), Ok((32 << 20) + (4 << 20)));
    assert_eq!(reserve_execution(32 << 20, 1 << 30), Ok((48 << 20) + (4 << 20)));
    assert_eq!(reserve_execution(1, 36 << 20), Ok(36 << 20));
    assert_eq!(reserve_execution(1, (36 << 20) - 1), Err(Error::ProfileMemory));
    assert_eq!(reserve_execution(usize::MAX, usize::MAX), Err(Error::ProfileReservation));
    let mut counter = SizeCounter::new();
    assert_eq!(counter.write(MAX_PROFILE_BYTES), Ok(65536));
    assert_eq!(counter.write(1), Err(Error::ProfileBytes));
    assert_eq!(counter.write(usize::MAX), Err(Error::ProfileSize));
}

#[test]
fn a_document_has_one_digest_in_whatever_order_it_was_written() {
    let text = |s: &str| Document::Text(s.to_owned());
    let nested = |first: bool| {
        let mut entries = vec![
            ("b".to_owned(), Document::Flag(true)),
            ("a\n".to_owned(), Document::List(vec![Document::Null, text("x\"")])),
        ];
        if first {
            entries.reverse();
        }
        Document::Object(entries)
    };
    let outer = |first: bool| {
        let mut entries = vec![
            ("\u{e9}".to_owned(), nested(first)),
            ("z".to_owned(), Document::Number("-1.5e3".to_owned())),
            ("Z".to_owned(), Document::Object(Vec::new())),
            ("zz".to_owned(), Document::List(Vec::new())),
        ];
        if first {
            entries.reverse();
        }
        Document::Object(entries)
    };
    let bytes = Sha256::digest(
        "{\"Z\":{},\"z\":-1.5e3,\"zz\":[],\"\u{e9}\":{\"a\\n\":[null,\"x\\\"\"],\"b\":true}}".as_bytes(),
    );
    let expected: String = bytes.iter().map(|b| format!("{b:02x}")).collect();
    assert_eq!(canonical_sha256(&outer(false)), expected);
    assert_eq!(canonical_sha256(&outer(true)), expected);
    assert!(comes_before("Z", "z") && comes_before("z", "zz") && !comes_before("z", "z"));
    assert_eq!(
        canonical_sha256(&Document::Flag(false)),
        Sha256::digest(b"false").iter().map(|b| format!("{b:02x}")).collect::<String>()
    );
}

#[test]
fn a_query_on_a_profile_is_routed_before_a_source_is_opened() {
    let p = profile();
    let query = |view: &'static str, access: Option<&'static str>| ProfileQuery {
        affine: (Ok(()), Ok(())),
        in_force: POLICY,
        policy: POLICY,
        view,
        access,
    };
    let route = |q: &ProfileQuery, available: usize| {
        route_profile(&p, &request(), q, SIZES, Ok(0), available, &NO)
    };
    let routed = route(&query("v", Some("wan")), 1 << 30).unwrap();
    assert_eq!(routed.role, Role::Accelerated);
    assert_eq!(routed.facts.selected_cells, 5);
    assert_eq!(Ok(routed.reservation), reserve_execution(0, 1 << 30));
    assert_eq!(route(&query("v", None), 1 << 30).unwrap().role, Role::Direct);
    assert_eq!(route(&query("v", None), 1).err(), Some(Error::ProfileMemory));
    assert_eq!(route(&query("w", None), 1 << 30).err(), Some(Error::ProfileQuery));
    let bent = ProfileQuery { affine: (Err(Error::GridShape), Ok(())), ..query("v", None) };
    assert_eq!(route(&bent, 1 << 30).err(), Some(Error::GridShape));
    let stop = Fixed { requested: true };
    let stopped =
        route_profile(&p, &request(), &query("v", None), SIZES, Ok(0), 1 << 30, &stop);
    assert_eq!(stopped.err(), Some(Error::Cancelled));
}
