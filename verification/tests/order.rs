use concurrency_primitives::order::rank;
use concurrency_primitives::order::Rank;

#[test]
fn rank_places_a_key_relative_to_a_probe() {
    assert_eq!(rank(&1u32, &2u32), Rank::Below);
    assert_eq!(rank(&2u32, &2u32), Rank::Same);
    assert_eq!(rank(&3u32, &2u32), Rank::Above);
}

#[test]
fn rank_follows_the_order_of_the_key_type() {
    assert_eq!(rank(&-5i64, &0i64), Rank::Below);
    assert_eq!(rank(&(1u8, 9u8), &(2u8, 0u8)), Rank::Below);
    assert_eq!(rank(&(2u8, 1u8), &(2u8, 0u8)), Rank::Above);
    assert_eq!(rank(&String::from("b"), &String::from("a")), Rank::Above);
}
