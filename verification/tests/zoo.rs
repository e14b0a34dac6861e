use pcgroup::verify_consistency;
use pcgroup::zoo::{cyclic, dihedral, quaternion};

#[test]
fn zoo_cyclic_presentations() {
    let c6 = cyclic(6);
    assert_eq!(c6.order(), 6);
    assert_eq!(c6.num_gens(), 2);
    assert_eq!(c6.to_string(), "< g0, g1 | g0^2 = g1, g1^3 = 1, [g1, g0] = 1 >");
    assert_eq!(cyclic(1).num_gens(), 0);
    for n in [1u32, 2, 3, 4, 12, 97, 360] {
        let pres = cyclic(n);
        assert_eq!(pres.order(), n as u128);
        assert_eq!(verify_consistency(&pres), Ok(()));
    }
}

#[test]
fn zoo_dihedral_presentations() {
    let s3 = dihedral(3);
    assert_eq!(s3.to_string(), "< g0, g1 | g0^2 = 1, g1^3 = 1, [g1, g0] = g1 >");
    let d8 = dihedral(4);
    assert_eq!(
        d8.to_string(),
        "< g0, g1, g2 | g0^2 = 1, g1^2 = g2, g2^2 = 1, [g1, g0] = g2, [g2, g0] = 1, [g2, g1] = 1 >"
    );
    for n in [1u32, 2, 5, 6, 12, 60] {
        let pres = dihedral(n);
        assert_eq!(pres.order(), 2 * n as u128);
        assert_eq!(verify_consistency(&pres), Ok(()));
    }
}

#[test]
fn zoo_quaternion_presentations() {
    let q8 = quaternion(2);
    assert_eq!(
        q8.to_string(),
        "< g0, g1, g2 | g0^2 = g2, g1^2 = g2, g2^2 = 1, [g1, g0] = g2, [g2, g0] = 1, [g2, g1] = 1 >"
    );
    for n in [2u32, 3, 4, 5, 6, 12, 30] {
        let pres = quaternion(n);
        assert_eq!(pres.order(), 4 * n as u128);
        assert_eq!(verify_consistency(&pres), Ok(()));
    }
}
