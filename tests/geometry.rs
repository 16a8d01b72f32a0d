use engine::geometry::BoundingBox;

#[test]
fn test_bounding_box() {
    let bb = BoundingBox {
        bottom: 1,
        left: 2,
        top: 6,
        right: 10,
    };

    assert_eq!(bb.rows(), 1..6);
    assert_eq!(bb.cols(), 2..10);

    assert_eq!(bb.size(), 40);
}

#[test]
fn scale_by_one_is_identity() {
    let bb = BoundingBox {
        bottom: 3,
        left: 4,
        top: 7,
        right: 9,
    };
    assert_eq!(bb.scale(1), bb);
}

#[test]
fn scale_twice_is_scale_by_product() {
    let bb = BoundingBox {
        bottom: 3,
        left: 4,
        top: 7,
        right: 9,
    };
    assert_eq!(bb.scale(2).scale(5), bb.scale(10));
    assert_eq!(
        bb.scale(10),
        BoundingBox {
            bottom: 30,
            left: 40,
            top: 70,
            right: 90,
        }
    );
}

#[test]
fn size_of_empty_box_is_zero() {
    let bb = BoundingBox {
        bottom: 5,
        left: 5,
        top: 5,
        right: 9,
    };
    assert_eq!(bb.size(), 0);
}
