use fixed::types::I96F32;
use starfield::fp::{FP128, Vec3F};

fn f(v: f64) -> FP128 {
    FP128::from_bits(I96F32::from_num(v).to_bits())
}

fn vec(x: f64, y: f64, z: f64) -> Vec3F {
    Vec3F::new(f(x), f(y), f(z))
}

#[test]
fn fp_init() {
    let f1 = f(1.0);
    let f0 = f(0.0);
    let n1 = f(-1.0);

    // default
    assert_eq!(Vec3F::zero(), Vec3F::default());

    // splat
    assert_eq!(Vec3F::zero(), Vec3F::splat(f0));
    assert_eq!(vec(1.0, 1.0, 1.0), Vec3F::splat(f1));
    assert_eq!(vec(-1.0, -1.0, -1.0), Vec3F::splat(n1));

    // new
    assert_eq!(vec(1.0, 0.0, 0.0), Vec3F::new(f1, f0, f0));
    assert_eq!(vec(-1.0, 0.0, 0.0), Vec3F::new(n1, f0, f0));
    assert_eq!(vec(0.0, 1.0, 0.0), Vec3F::new(f0, f1, f0));
    assert_eq!(vec(0.0, -1.0, 0.0), Vec3F::new(f0, n1, f0));
    assert_eq!(vec(0.0, 0.0, 1.0), Vec3F::new(f0, f0, f1));
    assert_eq!(vec(0.0, 0.0, -1.0), Vec3F::new(f0, f0, n1));

    let x123 = Vec3F::new(f1, f(2.0), f(3.0));

    // from/into
    assert_eq!(x123, Vec3F::from_slice(&[f1, f(2.0), f(3.0)]));
    assert_eq!([f1, f(2.0), f(3.0)], x123.to_array());
}

#[test]
fn mul() {
    let x123 = vec(1.0, 2.0, 3.0);

    // dot
    assert_eq!(f(1.0), x123.dot(vec(1.0, 0.0, 0.0)));
    assert_eq!(f(2.0), x123.dot(vec(0.0, 1.0, 0.0)));
    assert_eq!(f(3.0), x123.dot(vec(0.0, 0.0, 1.0)));
    assert_eq!(f(-1.0), x123.dot(vec(-1.0, 0.0, 0.0)));
    assert_eq!(f(-2.0), x123.dot(vec(0.0, -1.0, 0.0)));
    assert_eq!(f(-3.0), x123.dot(vec(0.0, 0.0, -1.0)));

    // cross
    let x = vec(1.0, 0.0, 0.0);
    let y = vec(0.0, 1.0, 0.0);
    let z = vec(0.0, 0.0, 1.0);
    assert_eq!(x, y.cross(z));
    assert_eq!(y, z.cross(x));
    assert_eq!(z, x.cross(y));
    assert_eq!(vec(1.0, 1.0, 1.0), vec(0.0, 1.0, -1.0).cross(vec(-1.0, 1.0, 0.0)));
}

#[test]
fn arithmetic() {
    let x123 = vec(1.0, 2.0, 3.0);
    let x246 = vec(2.0, 4.0, 6.0);
    let x149 = vec(1.0, 4.0, 9.0);

    // add
    assert_eq!(x246, x123.add(x123));
    // sub
    assert_eq!(Vec3F::zero(), x123.sub(x123));
    // mul
    assert_eq!(x149, x123.mul(x123));

    // scalar mul
    assert_eq!(x246, x123.mul_scalar(f(2.0)));

    // scalar div
    assert_eq!(x123, x246.div_scalar(f(2.0)));

    // add assign
    let mut v = x123;
    v.add_assign(x123);
    assert_eq!(x246, v);

    // sub assign
    let mut v = x123;
    v.sub_assign(x123);
    assert_eq!(Vec3F::zero(), v);

    // mul assign
    let mut v = x123;
    v.mul_assign(x123);
    assert_eq!(x149, v);

    // scalar mul assign
    let mut v = x123;
    v.mul_scalar_assign(f(2.0));
    assert_eq!(x246, v);

    // scalar div assign
    let mut v = x246;
    v.div_scalar_assign(f(2.0));
    assert_eq!(x123, v);

    // neg
    let n123 = vec(-1.0, -2.0, -3.0);
    assert_eq!(n123, x123.neg());
}

#[test]
fn length_and_extremes() {
    let v = vec(3.0, -4.0, 0.0);
    assert_eq!(v.length_squared(), f(25.0));
    assert_eq!(v.length(), f(5.0));
    assert_eq!(v.max(), f(3.0));
    assert_eq!(v.abs(), vec(3.0, 4.0, 0.0));
}

#[test]
fn rounding_of_products_and_quotients() {
    let tiny = FP128::from_bits(1);
    let half = f(0.5);
    // products round down, quotients towards zero
    assert_eq!(tiny.checked_mul(half), Some(FP128::from_bits(0)));
    assert_eq!(FP128::from_bits(-1).checked_mul(half), Some(FP128::from_bits(-1)));
    assert_eq!(FP128::from_bits(-1).checked_div(f(2.0)), Some(FP128::from_bits(0)));
    assert_eq!(f(1.0).checked_div(f(0.0)), None);
    assert_eq!(FP128::from_bits(i128::MAX).checked_mul(f(2.0)), None);
    assert_eq!(f(-3.0).mean(f(4.0)), f(0.5));
    assert_eq!(FP128::from_bits(-3).mean(FP128::from_bits(0)), FP128::from_bits(-2));
    assert_eq!(f(2.0).sqrt(), FP128::from_bits(I96F32::SQRT_2.to_bits()));
    assert_eq!(FP128::from_int(-3), f(-3.0));
}
