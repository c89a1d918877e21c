//! Tests of the Poseidon sponge: the golden configuration, call-splitting
//! invariance, a fuzz comparison against an independent reference model,
//! encoding injectivity, and exact values for the arithmetic, the
//! permutation and the encodings.

use poseidon_sponge::encoding::{
    append_le_bytes, bit_length_exec, bytes_to_sponge_bytes, bytes_to_sponge_bytes_with_length,
    bytes_to_sponge_field_elements, bytes_to_sponge_field_elements_with_length,
    field_element_to_sponge_bytes, field_element_to_sponge_field_elements,
    field_elements_to_sponge_bytes, field_elements_to_sponge_bytes_with_length,
    field_elements_to_sponge_field_elements, field_elements_to_sponge_field_elements_with_length,
    usable_bits, usable_bytes,
};
use poseidon_sponge::field::{add_mod, mul_mod, pow_mod};
use poseidon_sponge::params::{ParameterError, PoseidonParameters};
use poseidon_sponge::permutation::permute;
use poseidon_sponge::sponge::PoseidonSponge;

/// The field modulus: the Goldilocks prime.
const MODULUS: u64 = 18446744069414584321;

/// A fixed published round-constant and linear-layer table for the golden
/// configuration (rate 2, capacity 1, alpha 17, 8 full and 29 partial
/// rounds), reduced into the native field.
fn poseidon_parameters_for_test() -> PoseidonParameters {
    let mds: Vec<Vec<u64>> = vec![
        vec![881719792548671174, 8205522885895838238, 17540137366306170792],
        vec![357223601061841990, 3394528521743275497, 7796756258277435651],
        vec![3233723261977336908, 12620367773858132262, 6387075357462779842],
    ];
    let ark: Vec<Vec<u64>> = vec![
        vec![1238397784990142191, 9752438566499374025, 15985342705725572570],
        vec![239406364686989432, 15955797643175773208, 15651802289201706828],
        vec![10348661302338856079, 256684677434802995, 2186462749582396354],
        vec![1697229354423815227, 17665487968168018881, 7042609688499146224],
        vec![4355698830499568121, 17768820349930223671, 4417757350500072907],
        vec![16252680891024604759, 17537972284894432495, 15963291019751958163],
        vec![18370095111382242596, 3464546664265509995, 16492389814344557190],
        vec![4118449945683282047, 15324674158094982656, 17333345836932345721],
        vec![3992407494212665627, 6475242458669291279, 15412779217951821923],
        vec![6204787032921375262, 4546730220257920635, 15421180812972080199],
        vec![13024510609562393060, 8556743710823392508, 10334202973951092104],
        vec![5787942936557743074, 9217517377973028667, 6950047696655705096],
        vec![14279380219840733755, 925384336784725027, 135120433009445470],
        vec![1445131861645989397, 14919520211136924604, 8639743275134096456],
        vec![7519573532909154944, 16999434142543402281, 16694061212659813652],
        vec![10962880250173244667, 1098000530072366955, 10925649498325604740],
        vec![15767778737425334022, 13648249677001183901, 12916945000653108123],
        vec![2682115480389616048, 17924839018608615861, 15333994671405470654],
        vec![934761322656503643, 4883777208655084240, 8838725691308646112],
        vec![11046085308643487396, 5907508298297786211, 14763109838010756367],
        vec![12815638738785934748, 8724642566658465826, 10283344083313884400],
        vec![16468547142494987076, 17243514229181718365, 1149705181994299525],
        vec![17858682329661000228, 2927673569396571373, 14216673733382754329],
        vec![9319178518864795468, 4034553543944878490, 3135538662794071975],
        vec![17169644687649398811, 17079461508196465939, 17211800140205994888],
        vec![1824904362546027849, 14619980044690199851, 12013283906196387864],
        vec![9082947217706195371, 8627403790753843978, 4359165214498833272],
        vec![2915591799133138714, 14915854889973730258, 16655084659022371080],
        vec![8986664742509489172, 6694276663052803419, 17527749781545482517],
        vec![4206387514954194553, 6565081934807357372, 726446666411423944],
        vec![15944814500992304330, 10161862563522729297, 863468071588213306],
        vec![2906235138233630721, 5546146115802598452, 10818269731581571997],
        vec![16364369494788729662, 10764139329202490015, 15491972841391471587],
        vec![140088506394995141, 17745699677380279956, 7042778797084064143],
        vec![15648111289815628945, 5174357238885068396, 2867992337225030532],
        vec![6314912927516261603, 12912759680296059574, 2355488262891084445],
        vec![5028082688090933260, 17538139301840911656, 11755935362195038520],
    ];
    PoseidonParameters::new(MODULUS, 2, 1, 17, 8, 29, ark, mds).unwrap()
}
/// A small deterministic generator for test inputs.
fn next_rand(state: &mut u64) -> u64 {
    *state = state
        .wrapping_mul(6364136223846793005)
        .wrapping_add(1442695040888963407);
    *state
}

/// A pseudorandom field element.
fn rand_fe(state: &mut u64) -> u64 {
    next_rand(state) % MODULUS
}

/// Asserts that two values with the given byte and field-element encodings
/// neither encode alike nor hash alike.
fn assert_different_encodings(bytes1: &[u8], bytes2: &[u8], fes1: &[u64], fes2: &[u64]) {
    assert_ne!(bytes1, bytes2);

    let mut sponge1 = PoseidonSponge::new(poseidon_parameters_for_test());
    let mut sponge2 = PoseidonSponge::new(poseidon_parameters_for_test());

    sponge1.absorb(fes1);
    sponge2.absorb(fes2);

    assert_ne!(
        sponge1.squeeze_field_elements(3),
        sponge2.squeeze_field_elements(3)
    );
}

#[derive(Debug, PartialEq, Eq)]
enum SpongeMode {
    Absorbing,
    Squeezing,
}

/// An independent reference model of the duplex sponge: it buffers every
/// absorbed element and replays the whole buffer, one rate-sized chunk and
/// one permutation at a time, when squeezing begins.
struct Reference {
    params: PoseidonParameters,
    state: Vec<u64>,
    absorbing: Vec<u64>,
    squeeze_count: Option<usize>,
}

impl Reference {
    fn new(params: PoseidonParameters) -> Self {
        let t: usize = params.rate + params.capacity;
        let state: Vec<u64> = vec![0; t];
        Reference {
            params,
            state,
            absorbing: Vec::new(),
            squeeze_count: None,
        }
    }

    fn mode(&self) -> SpongeMode {
        match self.squeeze_count {
            Some(_) => {
                assert!(self.absorbing.is_empty());
                SpongeMode::Squeezing
            }
            None => SpongeMode::Absorbing,
        }
    }

    fn absorb(&mut self, input: &[u64]) {
        if !input.is_empty() {
            match self.mode() {
                SpongeMode::Absorbing => self.absorbing.extend_from_slice(input),
                SpongeMode::Squeezing => {
                    self.absorbing.extend_from_slice(input);
                    self.squeeze_count = None;
                }
            }
        }
    }

    fn flush_absorbed(&mut self) {
        let rate: usize = self.params.rate;
        let cap: usize = self.params.capacity;
        let p: u64 = self.params.modulus;
        let mut i: usize = 0;
        while i < self.absorbing.len() {
            let end: usize = (i + rate).min(self.absorbing.len());
            let mut k: usize = 0;
            let mut j: usize = i;
            while j < end {
                self.state[cap + k] = add_mod(p, self.state[cap + k], self.absorbing[j]);
                k += 1;
                j += 1;
            }
            permute(&self.params, &mut self.state);
            i = end;
        }
        if self.absorbing.is_empty() {
            permute(&self.params, &mut self.state);
        }
        self.absorbing.clear();
        assert_eq!(self.mode(), SpongeMode::Absorbing);
        self.squeeze_count = Some(0);
    }

    fn squeeze(&mut self, n: usize) -> Vec<u64> {
        match self.mode() {
            SpongeMode::Absorbing => self.flush_absorbed(),
            SpongeMode::Squeezing => {
                assert!(self.absorbing.is_empty());
                assert!(self.squeeze_count.is_some());
                if n == 0 {
                    let squeeze_count: usize = self.squeeze_count.unwrap();
                    let out_index: usize = squeeze_count % self.params.rate;
                    if out_index == 0 && squeeze_count != 0 {
                        permute(&self.params, &mut self.state);
                        self.squeeze_count = Some(0);
                    }
                }
            }
        }

        let rate: usize = self.params.rate;
        let mut output: Vec<u64> = Vec::new();
        let mut produced: usize = 0;
        while produced < n {
            let squeeze_count: usize = self.squeeze_count.unwrap();
            let out_index: usize = squeeze_count % rate;
            if out_index == 0 && squeeze_count != 0 {
                permute(&self.params, &mut self.state);
            }
            let out_index: usize = out_index + self.params.capacity;
            output.push(self.state[out_index]);
            if let Some(c) = self.squeeze_count.as_mut() {
                *c += 1;
            }
            produced += 1;
        }

        output
    }
}

#[test]
fn demo_bug() {
    let mut rng: u64 = 7;
    let input: Vec<u64> = (0..3).map(|_| rand_fe(&mut rng)).collect();

    let e0 = {
        let mut sponge = PoseidonSponge::new(poseidon_parameters_for_test());
        sponge.absorb(&input);
        sponge.squeeze_field_elements(3)
    };

    let e1 = {
        let mut sponge = PoseidonSponge::new(poseidon_parameters_for_test());
        sponge.absorb(&input);
        let e0 = sponge.squeeze_field_elements(1);
        let e1 = sponge.squeeze_field_elements(1);
        let e2 = sponge.squeeze_field_elements(1);
        e0.iter()
            .chain(e1.iter())
            .chain(e2.iter())
            .cloned()
            .collect::<Vec<_>>()
    };

    let e2 = {
        let mut sponge = PoseidonSponge::new(poseidon_parameters_for_test());
        sponge.absorb(&input);
        let e0 = sponge.squeeze_field_elements(2);
        let e1 = sponge.squeeze_field_elements(1);
        e0.iter().chain(e1.iter()).cloned().collect::<Vec<_>>()
    };

    // a squeeze whose size equals the rate, issued mid-sequence, must not
    // skip or add a permutation at the block boundary
    let e3 = {
        let mut sponge = PoseidonSponge::new(poseidon_parameters_for_test());
        sponge.absorb(&input);
        let e0 = sponge.squeeze_field_elements(1);
        let e1 = sponge.squeeze_field_elements(2);
        e0.iter().chain(e1.iter()).cloned().collect::<Vec<_>>()
    };

    assert_eq!(e0, e1);
    assert_eq!(e0, e2);
    assert_eq!(e0, e3);
}

#[test]
fn test_cross() {
    let mut sponge = PoseidonSponge::new(poseidon_parameters_for_test());
    let mut sponge_ref = Reference::new(poseidon_parameters_for_test());
    let rate: usize = 2;
    let mut rng: u64 = 0x1234_5678_9abc_def0;

    for _ in 0..200 {
        for _ in 0..100 {
            let do_absorb: bool = next_rand(&mut rng) % 2 == 0;
            let n_absorb: usize = (next_rand(&mut rng) as usize) % (rate * 2 + 2);
            let do_squeeze: bool = next_rand(&mut rng) % 2 == 0;
            let n_squeeze: usize = (next_rand(&mut rng) as usize) % (rate * 2 + 2);

            if do_absorb {
                let inputs: Vec<u64> = (0..n_absorb).map(|_| rand_fe(&mut rng)).collect();
                sponge_ref.absorb(&inputs);
                sponge.absorb(&inputs);
            }
            if do_squeeze {
                let out0 = sponge_ref.squeeze(n_squeeze);
                let out1 = sponge.squeeze_field_elements(n_squeeze);
                assert_eq!(out0, out1);
            }
        }
    }
}

#[test]
fn single_field_element() {
    let mut rng: u64 = 99;
    let elem1: u64 = rand_fe(&mut rng);
    let elem2: u64 = add_mod(MODULUS, elem1, 1);

    let mut bytes1: Vec<u8> = Vec::new();
    let mut bytes2: Vec<u8> = Vec::new();
    field_element_to_sponge_bytes(elem1, &mut bytes1);
    field_element_to_sponge_bytes(elem2, &mut bytes2);

    let mut fes1: Vec<u64> = Vec::new();
    let mut fes2: Vec<u64> = Vec::new();
    field_element_to_sponge_field_elements(elem1, &mut fes1);
    field_element_to_sponge_field_elements(elem2, &mut fes2);

    assert_different_encodings(&bytes1, &bytes2, &fes1, &fes2);
}

#[test]
fn list_with_constant_size_element() {
    let mut rng: u64 = 1717;
    let lst1: Vec<u64> = (0..1024 * 8).map(|_| rand_fe(&mut rng)).collect();
    let mut lst2: Vec<u64> = lst1.to_vec();
    lst2[3] = add_mod(MODULUS, lst2[3], 1);

    let mut bytes1: Vec<u8> = Vec::new();
    let mut bytes2: Vec<u8> = Vec::new();
    field_elements_to_sponge_bytes(&lst1, &mut bytes1);
    field_elements_to_sponge_bytes(&lst2, &mut bytes2);

    let mut fes1: Vec<u64> = Vec::new();
    let mut fes2: Vec<u64> = Vec::new();
    field_elements_to_sponge_field_elements(&lst1, &mut fes1);
    field_elements_to_sponge_field_elements(&lst2, &mut fes2);

    assert_different_encodings(&bytes1, &bytes2, &fes1, &fes2);
}

/// The byte encoding of a list of variable-size byte strings: each item
/// length-prefixed, in order.
fn encode_list_bytes(items: &[Vec<u8>]) -> Vec<u8> {
    let mut dest: Vec<u8> = Vec::new();
    for item in items {
        bytes_to_sponge_bytes_with_length(item, &mut dest);
    }
    dest
}

/// The field-element encoding of a list of variable-size byte strings: each
/// item length-prefixed and packed, in order.
fn encode_list_fes(items: &[Vec<u8>]) -> Vec<u64> {
    let mut dest: Vec<u64> = Vec::new();
    for item in items {
        bytes_to_sponge_field_elements_with_length(MODULUS, item, &mut dest);
    }
    dest
}

#[test]
fn list_with_nonconstant_size_element() {
    let lst1: Vec<Vec<u8>> = vec![vec![1u8, 2, 3, 4], vec![5, 6]];
    let lst2: Vec<Vec<u8>> = vec![vec![1u8, 2], vec![3, 4, 5, 6]];

    let bytes1 = encode_list_bytes(&lst1);
    let bytes2 = encode_list_bytes(&lst2);
    let fes1 = encode_list_fes(&lst1);
    let fes2 = encode_list_fes(&lst2);

    assert_ne!(fes1, fes2);
    assert_different_encodings(&bytes1, &bytes2, &fes1, &fes2);
}

#[test]
fn test_squeeze_cast_native() {
    let mut rng: u64 = 2024;
    let elem: u64 = rand_fe(&mut rng);
    let mut sponge1 = PoseidonSponge::new(poseidon_parameters_for_test());
    sponge1.absorb(&[elem]);
    let mut sponge2 = sponge1.clone();

    // casting into the native field must return the native output
    let squeezed1 = sponge1.squeeze_field_elements(5);
    let squeezed2 = sponge2.squeeze_field_elements_as(5, MODULUS);

    assert_eq!(squeezed1, squeezed2);
}

#[test]
fn golden_squeeze_values() {
    // the golden configuration, absorbing [1, 2, 3]: a regression pin for
    // the round constants, the S-box placement and the linear layer
    let mut sponge = PoseidonSponge::new(poseidon_parameters_for_test());
    sponge.absorb(&[1, 2, 3]);
    let out = sponge.squeeze_field_elements(3);
    assert_eq!(
        out,
        vec![
            13851113845656796325,
            11016782626244129622,
            17245563742115538150
        ]
    );

    // a fresh sponge is finalized by one permutation before its first output
    let mut fresh = PoseidonSponge::new(poseidon_parameters_for_test());
    let out = fresh.squeeze_field_elements(2);
    assert_eq!(out, vec![13748650323620015889, 3847537532179407291]);
}

#[test]
fn determinism() {
    let run = || {
        let mut sponge = PoseidonSponge::new(poseidon_parameters_for_test());
        sponge.absorb(&[10, 20]);
        let a = sponge.squeeze_field_elements(2);
        sponge.absorb(&[30]);
        let b = sponge.squeeze_field_elements(4);
        let c = sponge.squeeze_bytes(11);
        let d = sponge.squeeze_bits(9);
        (a, b, c, d)
    };
    assert_eq!(run(), run());
}

#[test]
fn absorb_call_splitting() {
    let mut rng: u64 = 31337;
    let elems: Vec<u64> = (0..5).map(|_| rand_fe(&mut rng)).collect();

    let mut one_call = PoseidonSponge::new(poseidon_parameters_for_test());
    one_call.absorb(&elems);
    let expected = one_call.squeeze_field_elements(4);

    // every way of cutting the five elements into two consecutive chunks,
    // including an empty chunk on either side
    for cut in 0..=elems.len() {
        let mut split = PoseidonSponge::new(poseidon_parameters_for_test());
        split.absorb(&elems[..cut]);
        split.absorb(&elems[cut..]);
        assert_eq!(split.squeeze_field_elements(4), expected);
    }

    // one element at a time
    let mut single = PoseidonSponge::new(poseidon_parameters_for_test());
    for e in &elems {
        single.absorb(&[*e]);
    }
    assert_eq!(single.squeeze_field_elements(4), expected);
}

#[test]
fn squeeze_call_splitting() {
    // absorb a whole number of blocks (4 elements, rate 2), so that the
    // block boundary falls exactly on the transition to squeezing
    let mut rng: u64 = 555;
    let elems: Vec<u64> = (0..4).map(|_| rand_fe(&mut rng)).collect();

    let make = || {
        let mut s = PoseidonSponge::new(poseidon_parameters_for_test());
        s.absorb(&elems);
        s
    };

    let expected = make().squeeze_field_elements(5);

    let partitions: Vec<Vec<usize>> = vec![
        vec![1, 1, 1, 1, 1],
        vec![2, 3],
        vec![3, 2],
        vec![1, 2, 2],
        vec![2, 1, 2],
        vec![4, 1],
        vec![5],
        vec![0, 5],
        vec![2, 0, 3],
        vec![5, 0],
    ];
    for partition in &partitions {
        let mut s = make();
        let mut got: Vec<u64> = Vec::new();
        for n in partition {
            got.extend(s.squeeze_field_elements(*n));
        }
        assert_eq!(&got, &expected, "partition {:?}", partition);
    }
}

#[test]
fn parameter_validation_errors() {
    let good = poseidon_parameters_for_test();
    let rcs = || good.round_constants.clone();
    let mds = || good.mds.clone();

    assert!(matches!(
        PoseidonParameters::new(MODULUS, 0, 1, 17, 8, 29, rcs(), mds()),
        Err(ParameterError::InvalidWidth)
    ));
    assert!(matches!(
        PoseidonParameters::new(MODULUS, 2, 0, 17, 8, 29, rcs(), mds()),
        Err(ParameterError::InvalidWidth)
    ));

    // one round-constant row too few
    let mut short_rcs = rcs();
    short_rcs.pop();
    assert!(matches!(
        PoseidonParameters::new(MODULUS, 2, 1, 17, 8, 29, short_rcs, mds()),
        Err(ParameterError::DimensionMismatch)
    ));

    // one row of the wrong width
    let mut bad_row = rcs();
    bad_row[5].pop();
    assert!(matches!(
        PoseidonParameters::new(MODULUS, 2, 1, 17, 8, 29, bad_row, mds()),
        Err(ParameterError::DimensionMismatch)
    ));

    // a matrix that is not width-by-width
    let mut bad_mds = mds();
    bad_mds.pop();
    assert!(matches!(
        PoseidonParameters::new(MODULUS, 2, 1, 17, 8, 29, rcs(), bad_mds),
        Err(ParameterError::DimensionMismatch)
    ));
    let mut bad_mds_row = mds();
    bad_mds_row[0].push(1);
    assert!(matches!(
        PoseidonParameters::new(MODULUS, 2, 1, 17, 8, 29, rcs(), bad_mds_row),
        Err(ParameterError::DimensionMismatch)
    ));

    // odd full rounds: 9 + 28 rows is still 37, so the dimensions match
    assert!(matches!(
        PoseidonParameters::new(MODULUS, 2, 1, 17, 9, 28, rcs(), mds()),
        Err(ParameterError::OddFullRounds)
    ));

    assert!(PoseidonParameters::new(MODULUS, 2, 1, 17, 8, 29, rcs(), mds()).is_ok());
}

#[test]
fn field_arithmetic_exact() {
    assert_eq!(add_mod(97, 90, 10), 3);
    assert_eq!(add_mod(MODULUS, MODULUS - 1, 1), 0);
    assert_eq!(mul_mod(97, 13, 8), 104 % 97);
    assert_eq!(mul_mod(MODULUS, MODULUS - 1, MODULUS - 1), 1);
    assert_eq!(pow_mod(97, 2, 10), 1024 % 97);
    assert_eq!(pow_mod(97, 5, 0), 1);
    assert_eq!(pow_mod(MODULUS, 3, 17), 129140163);
}

/// Tiny parameters over the field of 97 elements: rate 1, capacity 1,
/// S-box exponent 3, two full rounds around one partial round, round
/// constants `r + 1` everywhere, linear layer [[2, 3], [4, 5]].
fn tiny_parameters() -> PoseidonParameters {
    let rcs: Vec<Vec<u64>> = vec![vec![1, 1], vec![2, 2], vec![3, 3]];
    let mds: Vec<Vec<u64>> = vec![vec![2, 3], vec![4, 5]];
    PoseidonParameters::new(97, 1, 1, 3, 2, 1, rcs, mds).unwrap()
}

#[test]
fn tiny_permutation_exact() {
    let params = tiny_parameters();
    let mut state: Vec<u64> = vec![0, 5];
    permute(&params, &mut state);
    assert_eq!(state, vec![49, 51]);

    let mut sponge = PoseidonSponge::new(tiny_parameters());
    sponge.absorb(&[5]);
    assert_eq!(sponge.squeeze_field_elements(2), vec![51, 52]);
}

#[test]
fn encoding_exact_values() {
    let mut dest: Vec<u8> = Vec::new();
    bytes_to_sponge_bytes_with_length(&[1, 2, 3], &mut dest);
    assert_eq!(dest, vec![3, 0, 0, 0, 0, 0, 0, 0, 1, 2, 3]);

    let mut dest: Vec<u8> = Vec::new();
    bytes_to_sponge_bytes(&[9, 8], &mut dest);
    assert_eq!(dest, vec![9, 8]);

    let mut dest: Vec<u8> = Vec::new();
    field_element_to_sponge_bytes(0x0102030405060708, &mut dest);
    assert_eq!(dest, vec![8, 7, 6, 5, 4, 3, 2, 1]);

    // nine bytes pack into one full 7-byte chunk and one 2-byte chunk
    let mut dest: Vec<u64> = Vec::new();
    bytes_to_sponge_field_elements(MODULUS, &[1, 2, 3, 4, 5, 6, 7, 8, 9], &mut dest);
    assert_eq!(dest, vec![1976943448883713, 2312]);

    let mut dest: Vec<u64> = Vec::new();
    bytes_to_sponge_field_elements_with_length(MODULUS, &[1, 2, 3, 4, 5, 6, 7, 8, 9], &mut dest);
    assert_eq!(dest, vec![9, 1976943448883713, 2312]);

    let mut dest: Vec<u64> = Vec::new();
    field_elements_to_sponge_field_elements_with_length(MODULUS, &[40, 50], &mut dest);
    assert_eq!(dest, vec![2, 40, 50]);

    let mut dest: Vec<u8> = Vec::new();
    field_elements_to_sponge_bytes_with_length(&[256, 1], &mut dest);
    assert_eq!(
        dest,
        vec![2, 0, 0, 0, 0, 0, 0, 0, 0, 1, 0, 0, 0, 0, 0, 0, 1, 0, 0, 0, 0, 0, 0, 0]
    );

    assert_eq!(bit_length_exec(0), 0);
    assert_eq!(bit_length_exec(1), 1);
    assert_eq!(bit_length_exec(255), 8);
    assert_eq!(bit_length_exec(256), 9);
    assert_eq!(bit_length_exec(u64::MAX), 64);
    assert_eq!(usable_bytes(MODULUS), 7);
    assert_eq!(usable_bits(MODULUS), 63);
    assert_eq!(usable_bytes(257), 1);
    assert_eq!(usable_bytes(65535), 1);
    assert_eq!(usable_bytes(65536), 2);
    assert_eq!(usable_bytes(65537), 2);
}

#[test]
fn squeeze_bytes_minimal_and_truncated() {
    // ten bytes need two elements of seven usable bytes each
    let mut sponge = PoseidonSponge::new(poseidon_parameters_for_test());
    sponge.absorb(&[42]);
    let mut twin = sponge.clone();

    let bytes = sponge.squeeze_bytes(10);
    assert_eq!(bytes.len(), 10);

    let elems = twin.squeeze_field_elements(2);
    let mut expanded: Vec<u8> = Vec::new();
    append_le_bytes(elems[0], 7, &mut expanded);
    append_le_bytes(elems[1], 7, &mut expanded);
    assert_eq!(bytes, expanded[..10]);

    // afterwards both sponges hold the same squeeze position
    assert_eq!(
        sponge.squeeze_field_elements(3),
        twin.squeeze_field_elements(3)
    );

    let mut empty = PoseidonSponge::new(poseidon_parameters_for_test());
    assert_eq!(empty.squeeze_bytes(0).len(), 0);
}

#[test]
fn squeeze_bits_minimal_and_truncated() {
    // 65 bits need two elements of 63 usable bits each
    let mut sponge = PoseidonSponge::new(poseidon_parameters_for_test());
    sponge.absorb(&[7, 11]);
    let mut twin = sponge.clone();

    let bits = sponge.squeeze_bits(65);
    assert_eq!(bits.len(), 65);

    let elems = twin.squeeze_field_elements(2);
    let mut expanded: Vec<bool> = Vec::new();
    for e in &elems {
        let mut x: u64 = *e;
        for _ in 0..63 {
            expanded.push(x % 2 == 1);
            x /= 2;
        }
    }
    assert_eq!(bits, expanded[..65]);
}

#[test]
fn cast_into_smaller_field() {
    // casting reduces each element by the target modulus
    let mut sponge = PoseidonSponge::new(poseidon_parameters_for_test());
    sponge.absorb(&[5]);
    let mut twin = sponge.clone();

    let native = sponge.squeeze_field_elements(4);
    let cast = twin.squeeze_field_elements_as(4, 97);
    let expected: Vec<u64> = native.iter().map(|x| x % 97).collect();
    assert_eq!(cast, expected);
}

#[test]
fn empty_absorb_is_noop() {
    let mut sponge = PoseidonSponge::new(poseidon_parameters_for_test());
    sponge.absorb(&[1, 2, 3]);
    let mut twin = sponge.clone();

    sponge.absorb(&[]);
    let a = sponge.squeeze_field_elements(2);
    // an empty absorb while squeezing keeps the squeeze position
    sponge.absorb(&[]);
    let b = sponge.squeeze_field_elements(2);

    let expected = twin.squeeze_field_elements(4);
    assert_eq!([a, b].concat(), expected);
}
