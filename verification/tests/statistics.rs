use skarve::cancel::Fixed;
use skarve::categories::{key_of, Categories, CoverageMass};
use skarve::error::Error;
use skarve::moments::{power_scale, Deviation, ExactMoments, FloatEnd, Moments};
use skarve::precise::{coverage, Axes, Cell, Ring};
use skarve::quantiles::{quantiles, Sample};
use skarve::reducers::{
    CellFloats, MomentEnd, Options, Reducers, Wanted, DEFAULT_QUANTILE_SAMPLES, MAX_QUANTILE_SAMPLES,
};

const NO: Fixed = Fixed { requested: false };

fn b(value: f64) -> u64 {
    value.to_bits()
}

fn exact_of(values: &[f64]) -> ExactMoments {
    let mut state = ExactMoments::new();
    for &value in values {
        state.merge(&ExactMoments::of(b(value), b(1.))).unwrap();
    }
    state
}

#[test]
fn exact_moments_do_not_depend_on_the_order_of_their_parts() {
    let values = [1e16, 1., -1e16, 3., 0.125];
    let whole = exact_of(&values).variance().unwrap();
    let mut reversed = values;
    reversed.reverse();
    assert_eq!(exact_of(&reversed).variance().unwrap(), whole);
    let mut left = exact_of(&values[..2]);
    left.merge(&exact_of(&values[2..])).unwrap();
    assert_eq!(left.variance().unwrap(), whole);
}

#[test]
fn variances_are_those_of_the_population() {
    assert_eq!(exact_of(&[]).variance(), Ok(None));
    assert_eq!(exact_of(&[7.]).variance(), Ok(Some(b(0.))));
    assert_eq!(exact_of(&[1., 2., 3.]).variance(), Ok(Some(b(2. / 3.))));
    assert_eq!(exact_of(&[0., 4.]).variance(), Ok(Some(b(4.))));
    assert_eq!(exact_of(&[]).stddev(), Ok(Deviation::Nothing));
    assert_eq!(exact_of(&[7.]).stddev(), Ok(Deviation::Zero));
    let root = match exact_of(&[0., 4.]).stddev().unwrap() {
        Deviation::Scaled { mantissa, scale } => {
            f64::from_bits(mantissa).sqrt() * f64::from_bits(scale)
        }
        _ => panic!("a spread that is not nothing"),
    };
    assert_eq!(root, 2.);
    // Weights by a product, and a spread below the smallest double.
    let mut weighted = ExactMoments::of_product(b(1.), b(0.5), b(2.));
    weighted.merge(&ExactMoments::of(b(3.), b(1.))).unwrap();
    assert_eq!(weighted.variance(), Ok(Some(b(1.))));
    let tiny = exact_of(&[0., f64::from_bits(1)]);
    assert_eq!(tiny.variance(), Err(Error::VarianceRange));
}

#[test]
fn masses_are_exact_and_bounded() {
    let mut mass = CoverageMass::new();
    mass.add(b(0.5)).unwrap();
    mass.add(b(0.25)).unwrap();
    assert_eq!(mass.value(), Ok(b(0.75)));
    assert_eq!(mass.add(b(0.)), Err(Error::CategoryCoverage));
    assert_eq!(mass.add(b(1.5)), Err(Error::CategoryCoverage));
    assert_eq!(mass.add(b(-0.5)), Err(Error::CategoryCoverage));
    assert_eq!(mass.value(), Ok(b(0.75)));
    let mut close = CoverageMass::new();
    close.add(b(f64::from_bits(1))).unwrap();
    assert_eq!(close.value(), Ok(1));
}

#[test]
fn the_greatest_mass_leads_and_ties_go_to_the_first() {
    let mut a = Categories::new(&vec![b(-1.), b(0.), b(5.)]);
    a.add(b(5.), b(0.5)).unwrap();
    a.add(b(-0.), b(0.25)).unwrap();
    assert_eq!(a.add(b(6.), b(1.)), Err(Error::CategoryValue));
    let mut other = Categories::new(&vec![b(-1.), b(0.), b(5.)]);
    other.add(b(0.), b(0.25)).unwrap();
    a.merge(&other).unwrap();
    assert_eq!(a.merge(&Categories::new(&vec![b(1.)])), Err(Error::CategoryDomain));
    let end = a.finish().unwrap();
    assert_eq!(end.result.covered_cell_equivalents, vec![b(0.), b(0.5), b(0.5)]);
    assert_eq!(end.result.fractions, vec![Some(b(0.)), Some(b(0.5)), Some(b(0.5))]);
    assert_eq!(end.majority, Some(b(0.)));
    assert_eq!(end.variety, 2);
    let none = Categories::new(&vec![b(1.)]).finish().unwrap();
    assert_eq!((none.majority, none.variety), (None, 0));
    assert_eq!(none.result.fractions, vec![None]);
    assert!(key_of(b(-1.)) < key_of(b(0.)) && key_of(b(0.)) < key_of(b(5.)));
}

#[test]
fn quantiles_invert_the_distribution() {
    let sample = |value: f64, coverage: f64| Sample {
        value: b(value),
        coverage: b(coverage),
        weight: Some(b(2.)),
    };
    let samples = vec![sample(10., 1.), sample(20., 2.), sample(30., 1.)];
    let asked: Vec<u64> = [0., 0.25, 0.5, 0.75, 0.76, 1.].iter().map(|&p| b(p)).collect();
    let expected: Vec<Option<u64>> =
        [10., 10., 20., 20., 30., 30.].iter().map(|&v| Some(b(v))).collect();
    assert_eq!(quantiles(&samples, &asked, false, &NO), Ok(expected.clone()));
    assert_eq!(quantiles(&samples, &asked, true, &NO), Ok(expected));
    assert_eq!(quantiles(&vec![], &vec![b(0.5)], false, &NO), Ok(vec![None]));
    assert_eq!(
        quantiles(&samples, &asked, false, &Fixed { requested: true }),
        Err(Error::Cancelled)
    );
}

#[test]
fn exact_coverage_adds_up_to_the_area() {
    let axes = Axes { x_origin: b(0.), x_size: b(1.), y_origin: b(2.), y_size: b(-1.) };
    let square = |x0: f64, y0: f64, x1: f64, y1: f64, hole: bool| Ring {
        points: vec![
            (b(x0), b(y0)),
            (b(x1), b(y0)),
            (b(x1), b(y1)),
            (b(x0), b(y1)),
            (b(x0), b(y0)),
        ],
        hole,
    };
    let rings = vec![square(0.5, 0.5, 1.5, 1.5, false)];
    let (cells, area) = coverage(axes, &rings, (0, 2, 0, 2), 5, 1 << 30, &NO).unwrap();
    let quarter = b(0.25);
    assert_eq!(
        cells,
        vec![
            Cell { row: 0, col: 0, fraction: quarter },
            Cell { row: 0, col: 1, fraction: quarter },
            Cell { row: 1, col: 0, fraction: quarter },
            Cell { row: 1, col: 1, fraction: quarter },
        ]
    );
    assert_eq!(area, b(1.));
    let holed = vec![
        square(0., 0., 2., 2., false),
        square(0., 1., 1., 2., true),
    ];
    let (cells, area) = coverage(axes, &holed, (0, 2, 0, 2), 10, 1 << 30, &NO).unwrap();
    assert_eq!(cells.len(), 3);
    assert_eq!(area, b(3.));
    assert_eq!(
        coverage(axes, &rings, (0, 2, 0, 2), 5, 10, &NO),
        Err(Error::PrecisionMemory)
    );
    assert_eq!(
        coverage(axes, &rings, (0, 1000, 0, 1000), 5, 1 << 30, &NO),
        Err(Error::PrecisionWork)
    );
    assert_eq!(
        coverage(axes, &rings, (0, usize::MAX, 0, 2), 5, 1 << 30, &NO),
        Err(Error::PrecisionWorkOverflow)
    );
    assert_eq!(
        coverage(axes, &rings, (0, 2, 0, 2), 5, 1 << 30, &Fixed { requested: true }),
        Err(Error::Cancelled)
    );
}

fn wanted() -> Wanted {
    Wanted {
        variance: true,
        stddev: false,
        weighted_variance: false,
        weighted_stddev: false,
        categories: true,
        majority: true,
        variety: true,
        median: true,
        quantiles: true,
        weighted_median: false,
        weighted_quantiles: false,
    }
}

fn options() -> Options {
    Options {
        wanted: wanted(),
        quantiles: Some(vec![b(0.25)]),
        category_values: Some(vec![b(1.), b(3.)]),
        quantile_limit: 2,
    }
}

#[test]
fn reducers_hold_what_was_wanted_and_keep_their_first_error() {
    let floats = || CellFloats { plain: None, effective: 0, weighted: None };
    let mut reducers = Reducers::new(options());
    reducers.cell(b(3.), b(1.), None, floats());
    reducers.cell(b(1.), b(1.), None, floats());
    assert_eq!(reducers.check_error(), Ok(()));
    assert!(reducers.moments.as_ref().unwrap().is_exact());
    let end = MomentEnd { float: FloatEnd { m2: 0, variance: 0, root: 0 }, product: 0 };
    let again = MomentEnd { float: FloatEnd { m2: 0, variance: 0, root: 0 }, product: 0 };
    let result = reducers.finish(end, again, &NO).unwrap();
    assert_eq!(result.variance, Some(Some(b(1.))));
    assert_eq!(result.stddev, None);
    assert_eq!(result.majority, Some(Some(b(1.))));
    assert_eq!(result.variety, Some(2));
    assert_eq!(result.median, Some(Some(b(1.))));
    assert_eq!(result.quantiles.unwrap().values, vec![Some(b(1.))]);
    let mut many = Reducers::new(options());
    for _ in 0..3 {
        many.cell(b(1.), b(1.), None, floats());
    }
    assert_eq!(many.check_error(), Err(Error::QuantileBudget));
    let mut strange = Reducers::new(options());
    strange.cell(b(2.), b(1.), None, floats());
    assert_eq!(strange.check_error(), Err(Error::CategoryValue));
    strange.cell(b(1.), b(1.), None, floats());
    assert_eq!(strange.check_error(), Err(Error::CategoryValue));
}

#[test]
fn a_floating_state_stands_until_it_is_lost() {
    let mut state = Moments::new();
    assert!(!state.is_exact());
    assert_eq!(state.float().scale, 0);
    let other = Moments::new();
    state.merge(&other, None).unwrap();
    assert!(!state.is_exact());
}

#[test]
fn a_reducer_counts_what_it_may_hold() {
    let none = Options {
        wanted: Wanted {
            variance: false,
            stddev: false,
            weighted_variance: false,
            weighted_stddev: false,
            median: false,
            quantiles: false,
            ..wanted()
        },
        quantiles: None,
        category_values: None,
        quantile_limit: DEFAULT_QUANTILE_SAMPLES,
    };
    let moments = Options {
        wanted: Wanted { variance: true, weighted_stddev: true, ..none.wanted },
        quantiles: None,
        category_values: Some(vec![0; 3]),
        quantile_limit: MAX_QUANTILE_SAMPLES,
    };
    let median = Options {
        wanted: Wanted { median: true, ..none.wanted },
        quantiles: None,
        category_values: None,
        quantile_limit: 10,
    };
    assert_eq!(Reducers::retained_bytes(&none), Ok(4096));
    assert_eq!(Reducers::transient_bytes(&none), 4096);
    assert_eq!(Reducers::retained_bytes(&moments), Ok(4096 + 3 * 512 + 2 * 16384));
    assert_eq!(Reducers::transient_bytes(&moments), 4096 + 524288);
    assert_eq!(Reducers::retained_bytes(&median), Ok(4096 + 240));
    assert_eq!(Reducers::transient_bytes(&median), 4096 + 131072);
    assert_eq!(power_scale(6f64.to_bits()), (4f64.to_bits(), 1.5f64.to_bits()));
}
