use gridpuzzles::board::BoardSize;
use gridpuzzles::board::Size;
use gridpuzzles::shape::Shape;
use gridpuzzles::tagged_point::TaggedPoint;

fn test_shape() -> Shape {
    Shape::new(vec![
        TaggedPoint::new_pound(2, 3),
        TaggedPoint::new_pound(3, 3),
        TaggedPoint::new_pound(3, 4),
        TaggedPoint::new_pound(3, 5),
    ])
}

#[test]
fn new_empty() {
    let shape = Shape::new(vec![]);
    assert_eq!(shape.size(), Size::new(0, 0));
}

#[test]
fn new_non_empty() {
    let shape = test_shape();
    assert_eq!(shape.size(), Size::new(2, 3));
    assert_eq!(
        shape.tagged_points,
        vec![
            TaggedPoint::new_pound(0, 0),
            TaggedPoint::new_pound(1, 0),
            TaggedPoint::new_pound(1, 1),
            TaggedPoint::new_pound(1, 2),
        ]
    );
}

#[test]
fn new_negative_points() {
    let shape = Shape::new(vec![
        TaggedPoint::new_pound(2 - 10, 3 - 10),
        TaggedPoint::new_pound(3 - 10, 3 - 10),
        TaggedPoint::new_pound(3 - 10, 4 - 10),
        TaggedPoint::new_pound(3 - 10, 5 - 10),
    ]);
    assert_eq!(shape.size(), Size::new(2, 3));
    assert_eq!(
        shape.tagged_points,
        vec![
            TaggedPoint::new_pound(0, 0),
            TaggedPoint::new_pound(1, 0),
            TaggedPoint::new_pound(1, 1),
            TaggedPoint::new_pound(1, 2),
        ]
    );
}

#[test]
fn shape_to_string() {
    let shape = test_shape();
    println!("{}", shape.to_string());
    assert_eq!(
        "
##
 #
 #
",
        format!("\n{}", shape.to_string())
    );
}

#[test]
fn rotate_left() {
    let mut shape = test_shape();
    shape.rotate_left();
    println!("{}", shape.to_string());
    assert_eq!(
        "
###
#  
",
        format!("\n{}", shape.to_string())
    );
}

#[test]
fn rotate_right() {
    let mut shape = test_shape();
    shape.rotate_right();
    println!("{}", shape.to_string());
    assert_eq!(
        "
  #
###
",
        format!("\n{}", shape.to_string())
    );
}

#[test]
fn mirror_x() {
    let mut shape = test_shape();
    shape.mirror_x();
    println!("{}", shape.to_string());
    assert_eq!(
        "
##
# 
# 
",
        format!("\n{}", shape.to_string())
    );
}

#[test]
fn mirror_y() {
    let mut shape = test_shape();
    shape.mirror_y();
    println!("{}", shape.to_string());
    assert_eq!(
        "
 #
 #
##
",
        format!("\n{}", shape.to_string())
    );
}

#[test]
fn variants() {
    let variants = test_shape()
        .variants()
        .into_iter()
        .map(|shape| shape.to_string())
        .collect::<Vec<String>>()
        .join("\n");
    println!("{}", variants);
    assert_eq!(
        "
##
 #
 #

###
#  

# 
# 
##

  #
###

##
# 
# 

#  
###

 #
 #
##

###
  #
",
        format!("\n{}", variants)
    );
}

#[test]
fn variants2() {
    let mut test_shape = test_shape();
    test_shape.tagged_points.push(TaggedPoint::new_pound(0, 2));
    let variants = test_shape
        .variants()
        .into_iter()
        .map(|shape| shape.to_string())
        .collect::<Vec<String>>()
        .join("\n");
    println!("{}", variants);
    assert_eq!(
        "
##
 #
##

###
# #

##
# 
##

# #
###
",
        format!("\n{}", variants)
    );
}

#[test]
fn parse() {
    let sprite = "
        ####
        ###
        ##
        #";
    let actual = Shape::parse(sprite);
    let expected = {
        let mut points = vec![];
        for i in 0..4 {
            for j in 0..(4 - i) {
                points.push(TaggedPoint::new(i, j, '#'));
            }
        }
        Shape::new(points)
    };
    assert_eq!(expected, actual);
}

#[test]
fn first_variant_touches_axes() {
    let shape = Shape::new(vec![
        TaggedPoint::new(5, -4, 'X'),
        TaggedPoint::new(7, -2, 'O'),
        TaggedPoint::new(6, -3, 'X'),
    ]);
    let first = &shape.variants()[0];
    assert_eq!(0, first.tagged_points.iter().map(|p| p.x()).min().unwrap());
    assert_eq!(0, first.tagged_points.iter().map(|p| p.y()).min().unwrap());
    let mut sorted = shape.tagged_points.clone();
    sorted.sort();
    assert_eq!(first.tagged_points, sorted);
    assert_eq!(first.size, shape.size);
}

#[test]
fn variants_hold_sorted_points() {
    let shape = Shape::new(vec![TaggedPoint::new(1, 0, '#'), TaggedPoint::new(0, 0, '#')]);
    let variants = shape.variants();
    assert_eq!(
        vec![TaggedPoint::new(0, 0, '#'), TaggedPoint::new(1, 0, '#')],
        variants[0].tagged_points
    );
    for variant in &variants {
        let mut sorted = variant.tagged_points.clone();
        sorted.sort();
        assert_eq!(sorted, variant.tagged_points);
    }
    let mixed = Shape::parse("XO
OX").variants();
    assert_eq!(
        vec![
            TaggedPoint::new(0, 1, 'O'),
            TaggedPoint::new(1, 0, 'O'),
            TaggedPoint::new(0, 0, 'X'),
            TaggedPoint::new(1, 1, 'X'),
        ],
        mixed[0].tagged_points
    );
}

#[test]
fn four_turns_and_two_flips_give_the_shape_back() {
    let start = Shape::parse("XO\n X\n O");
    let mut shape = Shape::parse("XO\n X\n O");
    for _ in 0..4 {
        shape.rotate_left();
    }
    assert_eq!(start, shape);
    shape.mirror_x();
    assert_ne!(start, shape);
    shape.mirror_x();
    assert_eq!(start, shape);
}

#[test]
fn variant_counts() {
    assert_eq!(1, Shape::parse("#").variants().len());
    assert_eq!(1, Shape::parse("##\n##").variants().len());
    assert_eq!(2, Shape::parse("####").variants().len());
    assert_eq!(4, Shape::parse("###\n #").variants().len());
    assert_eq!(8, Shape::parse("##\n #\n #").variants().len());
    assert_eq!(2, Shape::parse("XO\nOX").variants().len());
    let variants = Shape::parse("##\n #\n #").variants();
    for i in 0..variants.len() {
        for j in 0..variants.len() {
            if i != j {
                let mut a = variants[i].tagged_points.clone();
                let mut b = variants[j].tagged_points.clone();
                a.sort();
                b.sort();
                assert!(a != b || variants[i].size != variants[j].size);
            }
        }
    }
}

#[test]
fn parse_rectangular_block() {
    let shape = Shape::parse("XXX\nXXX");
    assert_eq!(6, shape.tagged_points.len());
    assert!(shape.tagged_points.iter().all(|p| p.color() == 'X'));
    assert_eq!(Size::new(2, 3), shape.size());
    let mixed = Shape::parse("XO\r\nOX\n");
    assert_eq!(4, mixed.tagged_points.len());
    let mut colors: Vec<char> = mixed.tagged_points.iter().map(|p| p.color()).collect();
    colors.sort();
    colors.dedup();
    assert_eq!(vec!['O', 'X'], colors);
}

#[test]
fn parse_blank_sprite_is_empty() {
    let shape = Shape::parse("  \n   \n");
    assert!(shape.tagged_points.is_empty());
    assert_eq!(Size::new(0, 0), shape.size());
}

#[test]
fn translate_moves_every_point() {
    let mut shape = test_shape();
    shape.translate(&gridpuzzles::coord::Point::new(3, -1));
    assert_eq!(
        shape.tagged_points,
        vec![
            TaggedPoint::new_pound(3, -1),
            TaggedPoint::new_pound(4, -1),
            TaggedPoint::new_pound(4, 0),
            TaggedPoint::new_pound(4, 1),
        ]
    );
}
