use shamirs::ops::{add, div, inverse, mult};

#[test]
fn it_adds() {
    // With zero.
    assert_eq!(add(0x00, 0x00), 0x00);
    // Same values (should result in zero due to the nature of `XOR`).
    assert_eq!(add(0x01, 0x01), 0x00);
    assert_eq!(add(0x0F, 0x0F), 0x00);
    // A maximum value and a non-zero value.
    assert_eq!(add(0xFF, 0x01), 0xFE);
    // Additional test cases for various non-zero values
    assert_eq!(add(0x0A, 0x0B), 0x01);
    assert_eq!(add(0x0F, 0x01), 0x0E);
    assert_eq!(add(0x26, 0x81), 0xA7);
    assert_eq!(add(0x7B, 0xC6), 0xBD);
}

#[test]
fn it_mults() {
    // With zero.
    assert_eq!(mult(0x00, 0x00), 0x00);
    // With one (identity element).
    assert_eq!(mult(0x01, 0x01), 0x01);
    // A maximum value and a non-one value.
    assert_eq!(mult(0xFF, 0x02), 0xE5);
    // Additional test cases for various non-zero values
    assert_eq!(mult(0x8C, 0x2A), 0x3F);
    assert_eq!(mult(0xB4, 0xD9), 0xEB);
    assert_eq!(mult(0x52, 0xF2), 0x94);
    assert_eq!(mult(0x12, 0xAA), 0x01);
}

#[test]
fn it_divs() {
    // With one.
    assert_eq!(div(0x01, 0x01), 0x01);
    // A maximum value and a non-one divisor.
    assert_eq!(div(0xFF, 0x03), 0x55);
    // Division by the same number.
    assert_eq!(div(0xF3, 0xF3), 0x01);
    assert_eq!(div(0xC1, 0xC1), 0x01);
    assert_eq!(div(0xA7, 0xA7), 0x01);
    // Additional test cases for various non-zero values
    assert_eq!(div(0x06, 0x02), 0x03);
    assert_eq!(div(0x19, 0x5D), 0x8F);
    assert_eq!(div(0x7B, 0x3A), 0xF9);
    assert_eq!(div(0x8C, 0x2A), 0xD4);
}

#[test]
fn it_inverts() {
    // The inverse of one (should be one, as it`s the identity element).
    assert_eq!(inverse(0x01), 0x01);
    // The inverse of a non-one value.
    assert_eq!(inverse(0x02), 0x8D);
    // The inverse of various non-zero values
    assert_eq!(inverse(0x03), 0xF6);
    assert_eq!(inverse(0x10), 0x74);
    assert_eq!(inverse(0x53), 0xCA);
    assert_eq!(inverse(0xB7), 0x71);
    assert_eq!(inverse(0xFF), 0x1C);
}

#[test]
fn addition_is_commutative_and_self_inverse() {
    for a in 0..=255u8 {
        assert_eq!(add(a, a), 0);
        assert_eq!(add(a, 0), a);
        for b in 0..=255u8 {
            assert_eq!(add(a, b), add(b, a));
            assert_eq!(add(a, b), a ^ b);
        }
    }
}

#[test]
fn multiplication_has_one_and_zero() {
    for a in 0..=255u8 {
        assert_eq!(mult(a, 1), a);
        assert_eq!(mult(1, a), a);
        assert_eq!(mult(a, 0), 0);
        assert_eq!(mult(0, a), 0);
    }
}

#[test]
fn multiplication_is_commutative() {
    for a in 0..=255u8 {
        for b in 0..=255u8 {
            assert_eq!(mult(a, b), mult(b, a));
        }
    }
}

#[test]
fn multiplication_is_associative_and_distributive() {
    for a in (0..=255u8).step_by(7) {
        for b in (0..=255u8).step_by(5) {
            for c in (0..=255u8).step_by(3) {
                assert_eq!(mult(mult(a, b), c), mult(a, mult(b, c)));
                assert_eq!(mult(a, add(b, c)), add(mult(a, b), mult(a, c)));
            }
        }
    }
}

#[test]
fn multiplication_doubles_with_reduction() {
    // x * x^7 = x^8, which reduces to x^4 + x^3 + x + 1.
    assert_eq!(mult(0x80, 0x02), 0x1B);
    assert_eq!(mult(0x02, 0x80), 0x1B);
    assert_eq!(mult(0x57, 0x83), 0xC1);
    assert_eq!(mult(0x57, 0x13), 0xFE);
}

#[test]
fn every_nonzero_element_has_an_inverse() {
    for a in 1..=255u8 {
        let inv = inverse(a);
        assert_ne!(inv, 0);
        assert_eq!(mult(a, inv), 1);
        assert_eq!(mult(inv, a), 1);
        assert_eq!(inverse(inv), a);
    }
}

#[test]
fn division_is_multiplication_by_the_inverse() {
    for a in 0..=255u8 {
        for b in 1..=255u8 {
            let q = div(a, b);
            assert_eq!(q, mult(a, inverse(b)));
            assert_eq!(mult(q, b), a);
        }
    }
}

#[test]
fn zero_divided_by_anything_is_zero() {
    for b in 1..=255u8 {
        assert_eq!(div(0, b), 0);
    }
}

#[test]
fn division_selects_the_product_for_a_nonzero_numerator() {
    // Neither operand is handed back in place of the quotient.
    assert_eq!(div(0xFF, 0x03), 0x55);
    assert_ne!(div(0xFF, 0x03), 0xFF);
    assert_eq!(div(0x01, 0x02), 0x8D);
    assert_eq!(div(0x02, 0x01), 0x02);
}

#[test]
fn multiplication_by_two_doubles() {
    for a in 0..=255u8 {
        let doubled = if a & 0x80 != 0 { (a << 1) ^ 0x1B } else { a << 1 };
        assert_eq!(mult(a, 2), doubled);
        assert_eq!(mult(2, a), doubled);
    }
}

#[test]
fn multiplication_is_the_reduced_product_of_polynomials() {
    for a in 0..=255u16 {
        for b in 0..=255u16 {
            // The product of the two polynomials over GF(2).
            let mut product: u16 = 0;
            for i in 0..8 {
                if b & (1 << i) != 0 {
                    product ^= a << i;
                }
            }
            // Its remainder on division by x^8 + x^4 + x^3 + x + 1.
            for degree in (8..15).rev() {
                if product & (1 << degree) != 0 {
                    product ^= 0x11B << (degree - 8);
                }
            }
            assert_eq!(mult(a as u8, b as u8) as u16, product);
        }
    }
}
