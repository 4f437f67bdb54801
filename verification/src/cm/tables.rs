//! The logistic curve of the mixer, as data.
//!
//! Entry `i` of the curve is `4096 / (1 + exp(-(i - 2048) / 256))`, rounded to
//! the nearest integer and kept within `1..=4095`. Holding it as integers keeps
//! the compressed stream identical on every platform. The curve is cut into
//! rows of 256 entries.

use vstd::prelude::*;

verus! {

pub const SQUASH_0: [u16; 256] = [
    1, 1, 1, 1, 1, 1, 1, 1, 1, 1, 1, 1, 1, 1, 1, 1,
    1, 1, 1, 1, 1, 1, 1, 2, 2, 2, 2, 2, 2, 2, 2, 2,
    2, 2, 2, 2, 2, 2, 2, 2, 2, 2, 2, 2, 2, 2, 2, 2,
    2, 2, 2, 2, 2, 2, 2, 2, 2, 2, 2, 2, 2, 2, 2, 2,
    2, 2, 2, 2, 2, 2, 2, 2, 2, 2, 2, 2, 2, 2, 2, 2,
    2, 2, 2, 2, 2, 2, 2, 2, 2, 2, 2, 2, 2, 2, 2, 2,
    2, 2, 2, 2, 2, 2, 2, 2, 2, 2, 2, 2, 2, 2, 2, 2,
    2, 2, 2, 2, 2, 2, 2, 2, 2, 2, 2, 2, 2, 2, 2, 2,
    2, 2, 2, 2, 2, 2, 2, 2, 2, 2, 2, 2, 2, 2, 2, 2,
    2, 2, 2, 2, 2, 2, 2, 2, 2, 2, 3, 3, 3, 3, 3, 3,
    3, 3, 3, 3, 3, 3, 3, 3, 3, 3, 3, 3, 3, 3, 3, 3,
    3, 3, 3, 3, 3, 3, 3, 3, 3, 3, 3, 3, 3, 3, 3, 3,
    3, 3, 3, 3, 3, 3, 3, 3, 3, 3, 3, 3, 3, 3, 3, 3,
    3, 3, 3, 3, 3, 3, 3, 3, 3, 3, 3, 3, 3, 3, 3, 3,
    3, 3, 3, 3, 3, 3, 3, 3, 3, 3, 3, 3, 3, 3, 3, 3,
    4, 4, 4, 4, 4, 4, 4, 4, 4, 4, 4, 4, 4, 4, 4, 4,
];

pub const SQUASH_1: [u16; 256] = [
    4, 4, 4, 4, 4, 4, 4, 4, 4, 4, 4, 4, 4, 4, 4, 4,
    4, 4, 4, 4, 4, 4, 4, 4, 4, 4, 4, 4, 4, 4, 4, 4,
    4, 4, 4, 4, 4, 4, 4, 4, 4, 4, 4, 4, 4, 4, 4, 4,
    5, 5, 5, 5, 5, 5, 5, 5, 5, 5, 5, 5, 5, 5, 5, 5,
    5, 5, 5, 5, 5, 5, 5, 5, 5, 5, 5, 5, 5, 5, 5, 5,
    5, 5, 5, 5, 5, 5, 5, 5, 5, 5, 5, 5, 5, 5, 5, 5,
    5, 5, 5, 5, 6, 6, 6, 6, 6, 6, 6, 6, 6, 6, 6, 6,
    6, 6, 6, 6, 6, 6, 6, 6, 6, 6, 6, 6, 6, 6, 6, 6,
    6, 6, 6, 6, 6, 6, 6, 6, 6, 6, 6, 6, 6, 6, 6, 7,
    7, 7, 7, 7, 7, 7, 7, 7, 7, 7, 7, 7, 7, 7, 7, 7,
    7, 7, 7, 7, 7, 7, 7, 7, 7, 7, 7, 7, 7, 7, 7, 7,
    7, 7, 7, 8, 8, 8, 8, 8, 8, 8, 8, 8, 8, 8, 8, 8,
    8, 8, 8, 8, 8, 8, 8, 8, 8, 8, 8, 8, 8, 8, 8, 8,
    8, 8, 8, 8, 9, 9, 9, 9, 9, 9, 9, 9, 9, 9, 9, 9,
    9, 9, 9, 9, 9, 9, 9, 9, 9, 9, 9, 9, 9, 9, 9, 9,
    10, 10, 10, 10, 10, 10, 10, 10, 10, 10, 10, 10, 10, 10, 10, 10,
];

pub const SQUASH_2: [u16; 256] = [
    10, 10, 10, 10, 10, 10, 10, 10, 10, 10, 11, 11, 11, 11, 11, 11,
    11, 11, 11, 11, 11, 11, 11, 11, 11, 11, 11, 11, 11, 11, 11, 11,
    11, 12, 12, 12, 12, 12, 12, 12, 12, 12, 12, 12, 12, 12, 12, 12,
    12, 12, 12, 12, 12, 12, 12, 13, 13, 13, 13, 13, 13, 13, 13, 13,
    13, 13, 13, 13, 13, 13, 13, 13, 13, 13, 14, 14, 14, 14, 14, 14,
    14, 14, 14, 14, 14, 14, 14, 14, 14, 14, 14, 14, 14, 15, 15, 15,
    15, 15, 15, 15, 15, 15, 15, 15, 15, 15, 15, 15, 15, 15, 16, 16,
    16, 16, 16, 16, 16, 16, 16, 16, 16, 16, 16, 16, 16, 16, 17, 17,
    17, 17, 17, 17, 17, 17, 17, 17, 17, 17, 17, 17, 17, 18, 18, 18,
    18, 18, 18, 18, 18, 18, 18, 18, 18, 18, 18, 19, 19, 19, 19, 19,
    19, 19, 19, 19, 19, 19, 19, 19, 19, 20, 20, 20, 20, 20, 20, 20,
    20, 20, 20, 20, 20, 20, 21, 21, 21, 21, 21, 21, 21, 21, 21, 21,
    21, 21, 22, 22, 22, 22, 22, 22, 22, 22, 22, 22, 22, 22, 23, 23,
    23, 23, 23, 23, 23, 23, 23, 23, 23, 24, 24, 24, 24, 24, 24, 24,
    24, 24, 24, 24, 25, 25, 25, 25, 25, 25, 25, 25, 25, 25, 26, 26,
    26, 26, 26, 26, 26, 26, 26, 26, 27, 27, 27, 27, 27, 27, 27, 27,
];

pub const SQUASH_3: [u16; 256] = [
    27, 28, 28, 28, 28, 28, 28, 28, 28, 28, 28, 29, 29, 29, 29, 29,
    29, 29, 29, 30, 30, 30, 30, 30, 30, 30, 30, 30, 31, 31, 31, 31,
    31, 31, 31, 31, 32, 32, 32, 32, 32, 32, 32, 32, 33, 33, 33, 33,
    33, 33, 33, 33, 34, 34, 34, 34, 34, 34, 34, 34, 35, 35, 35, 35,
    35, 35, 35, 36, 36, 36, 36, 36, 36, 36, 37, 37, 37, 37, 37, 37,
    37, 38, 38, 38, 38, 38, 38, 38, 39, 39, 39, 39, 39, 39, 39, 40,
    40, 40, 40, 40, 40, 41, 41, 41, 41, 41, 41, 41, 42, 42, 42, 42,
    42, 42, 43, 43, 43, 43, 43, 43, 44, 44, 44, 44, 44, 44, 45, 45,
    45, 45, 45, 46, 46, 46, 46, 46, 46, 47, 47, 47, 47, 47, 48, 48,
    48, 48, 48, 48, 49, 49, 49, 49, 49, 50, 50, 50, 50, 50, 51, 51,
    51, 51, 51, 52, 52, 52, 52, 52, 53, 53, 53, 53, 53, 54, 54, 54,
    54, 54, 55, 55, 55, 55, 55, 56, 56, 56, 56, 57, 57, 57, 57, 57,
    58, 58, 58, 58, 58, 59, 59, 59, 59, 60, 60, 60, 60, 61, 61, 61,
    61, 62, 62, 62, 62, 62, 63, 63, 63, 63, 64, 64, 64, 64, 65, 65,
    65, 65, 66, 66, 66, 66, 67, 67, 67, 67, 68, 68, 68, 68, 69, 69,
    69, 70, 70, 70, 70, 71, 71, 71, 71, 72, 72, 72, 73, 73, 73, 73,
];

pub const SQUASH_4: [u16; 256] = [
    74, 74, 74, 75, 75, 75, 75, 76, 76, 76, 77, 77, 77, 77, 78, 78,
    78, 79, 79, 79, 80, 80, 80, 80, 81, 81, 81, 82, 82, 82, 83, 83,
    83, 84, 84, 84, 85, 85, 85, 86, 86, 86, 87, 87, 87, 88, 88, 88,
    89, 89, 89, 90, 90, 90, 91, 91, 91, 92, 92, 92, 93, 93, 93, 94,
    94, 94, 95, 95, 96, 96, 96, 97, 97, 97, 98, 98, 99, 99, 99, 100,
    100, 100, 101, 101, 102, 102, 102, 103, 103, 104, 104, 104, 105, 105, 106, 106,
    106, 107, 107, 108, 108, 108, 109, 109, 110, 110, 110, 111, 111, 112, 112, 113,
    113, 113, 114, 114, 115, 115, 116, 116, 116, 117, 117, 118, 118, 119, 119, 120,
    120, 121, 121, 121, 122, 122, 123, 123, 124, 124, 125, 125, 126, 126, 127, 127,
    128, 128, 129, 129, 130, 130, 130, 131, 131, 132, 132, 133, 133, 134, 135, 135,
    136, 136, 137, 137, 138, 138, 139, 139, 140, 140, 141, 141, 142, 142, 143, 143,
    144, 144, 145, 146, 146, 147, 147, 148, 148, 149, 149, 150, 151, 151, 152, 152,
    153, 153, 154, 155, 155, 156, 156, 157, 158, 158, 159, 159, 160, 161, 161, 162,
    162, 163, 164, 164, 165, 165, 166, 167, 167, 168, 169, 169, 170, 170, 171, 172,
    172, 173, 174, 174, 175, 176, 176, 177, 178, 178, 179, 180, 180, 181, 182, 182,
    183, 184, 184, 185, 186, 186, 187, 188, 189, 189, 190, 191, 191, 192, 193, 194,
];

pub const SQUASH_5: [u16; 256] = [
    194, 195, 196, 196, 197, 198, 199, 199, 200, 201, 202, 202, 203, 204, 205, 205,
    206, 207, 208, 208, 209, 210, 211, 212, 212, 213, 214, 215, 216, 216, 217, 218,
    219, 220, 220, 221, 222, 223, 224, 224, 225, 226, 227, 228, 229, 229, 230, 231,
    232, 233, 234, 235, 235, 236, 237, 238, 239, 240, 241, 242, 243, 243, 244, 245,
    246, 247, 248, 249, 250, 251, 252, 253, 253, 254, 255, 256, 257, 258, 259, 260,
    261, 262, 263, 264, 265, 266, 267, 268, 269, 270, 271, 272, 273, 274, 275, 276,
    277, 278, 279, 280, 281, 282, 283, 284, 285, 286, 287, 288, 289, 290, 291, 292,
    293, 294, 295, 296, 298, 299, 300, 301, 302, 303, 304, 305, 306, 307, 308, 310,
    311, 312, 313, 314, 315, 316, 318, 319, 320, 321, 322, 323, 324, 326, 327, 328,
    329, 330, 332, 333, 334, 335, 336, 338, 339, 340, 341, 342, 344, 345, 346, 347,
    349, 350, 351, 352, 354, 355, 356, 357, 359, 360, 361, 363, 364, 365, 366, 368,
    369, 370, 372, 373, 374, 376, 377, 378, 380, 381, 382, 384, 385, 386, 388, 389,
    391, 392, 393, 395, 396, 398, 399, 400, 402, 403, 405, 406, 407, 409, 410, 412,
    413, 415, 416, 418, 419, 421, 422, 423, 425, 426, 428, 429, 431, 432, 434, 435,
    437, 439, 440, 442, 443, 445, 446, 448, 449, 451, 452, 454, 456, 457, 459, 460,
    462, 464, 465, 467, 468, 470, 472, 473, 475, 477, 478, 480, 482, 483, 485, 487,
];

pub const SQUASH_6: [u16; 256] = [
    488, 490, 492, 493, 495, 497, 498, 500, 502, 504, 505, 507, 509, 511, 512, 514,
    516, 518, 519, 521, 523, 525, 526, 528, 530, 532, 534, 535, 537, 539, 541, 543,
    545, 546, 548, 550, 552, 554, 556, 558, 560, 561, 563, 565, 567, 569, 571, 573,
    575, 577, 579, 581, 583, 585, 586, 588, 590, 592, 594, 596, 598, 600, 602, 604,
    606, 608, 610, 612, 615, 617, 619, 621, 623, 625, 627, 629, 631, 633, 635, 637,
    639, 642, 644, 646, 648, 650, 652, 654, 656, 659, 661, 663, 665, 667, 669, 672,
    674, 676, 678, 680, 683, 685, 687, 689, 692, 694, 696, 698, 701, 703, 705, 707,
    710, 712, 714, 717, 719, 721, 724, 726, 728, 731, 733, 735, 738, 740, 742, 745,
    747, 750, 752, 754, 757, 759, 762, 764, 766, 769, 771, 774, 776, 779, 781, 784,
    786, 789, 791, 794, 796, 799, 801, 804, 806, 809, 811, 814, 816, 819, 821, 824,
    827, 829, 832, 834, 837, 840, 842, 845, 847, 850, 853, 855, 858, 861, 863, 866,
    869, 871, 874, 877, 879, 882, 885, 887, 890, 893, 896, 898, 901, 904, 907, 909,
    912, 915, 918, 921, 923, 926, 929, 932, 935, 937, 940, 943, 946, 949, 952, 954,
    957, 960, 963, 966, 969, 972, 975, 977, 980, 983, 986, 989, 992, 995, 998, 1001,
    1004, 1007, 1010, 1013, 1016, 1019, 1022, 1025, 1028, 1031, 1034, 1037, 1040, 1043, 1046, 1049,
    1052, 1055, 1058, 1061, 1064, 1067, 1070, 1074, 1077, 1080, 1083, 1086, 1089, 1092, 1095, 1098,
];

pub const SQUASH_7: [u16; 256] = [
    1102, 1105, 1108, 1111, 1114, 1117, 1121, 1124, 1127, 1130, 1133, 1137, 1140, 1143, 1146, 1149,
    1153, 1156, 1159, 1162, 1166, 1169, 1172, 1175, 1179, 1182, 1185, 1189, 1192, 1195, 1198, 1202,
    1205, 1208, 1212, 1215, 1218, 1222, 1225, 1228, 1232, 1235, 1239, 1242, 1245, 1249, 1252, 1256,
    1259, 1262, 1266, 1269, 1273, 1276, 1279, 1283, 1286, 1290, 1293, 1297, 1300, 1304, 1307, 1311,
    1314, 1318, 1321, 1325, 1328, 1332, 1335, 1339, 1342, 1346, 1349, 1353, 1356, 1360, 1363, 1367,
    1370, 1374, 1378, 1381, 1385, 1388, 1392, 1396, 1399, 1403, 1406, 1410, 1414, 1417, 1421, 1424,
    1428, 1432, 1435, 1439, 1443, 1446, 1450, 1454, 1457, 1461, 1465, 1468, 1472, 1476, 1479, 1483,
    1487, 1490, 1494, 1498, 1502, 1505, 1509, 1513, 1516, 1520, 1524, 1528, 1531, 1535, 1539, 1543,
    1546, 1550, 1554, 1558, 1561, 1565, 1569, 1573, 1577, 1580, 1584, 1588, 1592, 1596, 1599, 1603,
    1607, 1611, 1615, 1618, 1622, 1626, 1630, 1634, 1638, 1641, 1645, 1649, 1653, 1657, 1661, 1665,
    1668, 1672, 1676, 1680, 1684, 1688, 1692, 1696, 1699, 1703, 1707, 1711, 1715, 1719, 1723, 1727,
    1731, 1734, 1738, 1742, 1746, 1750, 1754, 1758, 1762, 1766, 1770, 1774, 1778, 1782, 1785, 1789,
    1793, 1797, 1801, 1805, 1809, 1813, 1817, 1821, 1825, 1829, 1833, 1837, 1841, 1845, 1849, 1853,
    1857, 1861, 1864, 1868, 1872, 1876, 1880, 1884, 1888, 1892, 1896, 1900, 1904, 1908, 1912, 1916,
    1920, 1924, 1928, 1932, 1936, 1940, 1944, 1948, 1952, 1956, 1960, 1964, 1968, 1972, 1976, 1980,
    1984, 1988, 1992, 1996, 2000, 2004, 2008, 2012, 2016, 2020, 2024, 2028, 2032, 2036, 2040, 2044,
];

pub const SQUASH_8: [u16; 256] = [
    2048, 2052, 2056, 2060, 2064, 2068, 2072, 2076, 2080, 2084, 2088, 2092, 2096, 2100, 2104, 2108,
    2112, 2116, 2120, 2124, 2128, 2132, 2136, 2140, 2144, 2148, 2152, 2156, 2160, 2164, 2168, 2172,
    2176, 2180, 2184, 2188, 2192, 2196, 2200, 2204, 2208, 2212, 2216, 2220, 2224, 2228, 2232, 2235,
    2239, 2243, 2247, 2251, 2255, 2259, 2263, 2267, 2271, 2275, 2279, 2283, 2287, 2291, 2295, 2299,
    2303, 2307, 2311, 2314, 2318, 2322, 2326, 2330, 2334, 2338, 2342, 2346, 2350, 2354, 2358, 2362,
    2365, 2369, 2373, 2377, 2381, 2385, 2389, 2393, 2397, 2400, 2404, 2408, 2412, 2416, 2420, 2424,
    2428, 2431, 2435, 2439, 2443, 2447, 2451, 2455, 2458, 2462, 2466, 2470, 2474, 2478, 2481, 2485,
    2489, 2493, 2497, 2500, 2504, 2508, 2512, 2516, 2519, 2523, 2527, 2531, 2535, 2538, 2542, 2546,
    2550, 2553, 2557, 2561, 2565, 2568, 2572, 2576, 2580, 2583, 2587, 2591, 2594, 2598, 2602, 2606,
    2609, 2613, 2617, 2620, 2624, 2628, 2631, 2635, 2639, 2642, 2646, 2650, 2653, 2657, 2661, 2664,
    2668, 2672, 2675, 2679, 2682, 2686, 2690, 2693, 2697, 2700, 2704, 2708, 2711, 2715, 2718, 2722,
    2726, 2729, 2733, 2736, 2740, 2743, 2747, 2750, 2754, 2757, 2761, 2764, 2768, 2771, 2775, 2778,
    2782, 2785, 2789, 2792, 2796, 2799, 2803, 2806, 2810, 2813, 2817, 2820, 2823, 2827, 2830, 2834,
    2837, 2840, 2844, 2847, 2851, 2854, 2857, 2861, 2864, 2868, 2871, 2874, 2878, 2881, 2884, 2888,
    2891, 2894, 2898, 2901, 2904, 2907, 2911, 2914, 2917, 2921, 2924, 2927, 2930, 2934, 2937, 2940,
    2943, 2947, 2950, 2953, 2956, 2959, 2963, 2966, 2969, 2972, 2975, 2979, 2982, 2985, 2988, 2991,
];

pub const SQUASH_9: [u16; 256] = [
    2994, 2998, 3001, 3004, 3007, 3010, 3013, 3016, 3019, 3022, 3026, 3029, 3032, 3035, 3038, 3041,
    3044, 3047, 3050, 3053, 3056, 3059, 3062, 3065, 3068, 3071, 3074, 3077, 3080, 3083, 3086, 3089,
    3092, 3095, 3098, 3101, 3104, 3107, 3110, 3113, 3116, 3119, 3121, 3124, 3127, 3130, 3133, 3136,
    3139, 3142, 3144, 3147, 3150, 3153, 3156, 3159, 3161, 3164, 3167, 3170, 3173, 3175, 3178, 3181,
    3184, 3187, 3189, 3192, 3195, 3198, 3200, 3203, 3206, 3209, 3211, 3214, 3217, 3219, 3222, 3225,
    3227, 3230, 3233, 3235, 3238, 3241, 3243, 3246, 3249, 3251, 3254, 3256, 3259, 3262, 3264, 3267,
    3269, 3272, 3275, 3277, 3280, 3282, 3285, 3287, 3290, 3292, 3295, 3297, 3300, 3302, 3305, 3307,
    3310, 3312, 3315, 3317, 3320, 3322, 3325, 3327, 3330, 3332, 3334, 3337, 3339, 3342, 3344, 3346,
    3349, 3351, 3354, 3356, 3358, 3361, 3363, 3365, 3368, 3370, 3372, 3375, 3377, 3379, 3382, 3384,
    3386, 3389, 3391, 3393, 3395, 3398, 3400, 3402, 3404, 3407, 3409, 3411, 3413, 3416, 3418, 3420,
    3422, 3424, 3427, 3429, 3431, 3433, 3435, 3437, 3440, 3442, 3444, 3446, 3448, 3450, 3452, 3454,
    3457, 3459, 3461, 3463, 3465, 3467, 3469, 3471, 3473, 3475, 3477, 3479, 3481, 3484, 3486, 3488,
    3490, 3492, 3494, 3496, 3498, 3500, 3502, 3504, 3506, 3508, 3510, 3511, 3513, 3515, 3517, 3519,
    3521, 3523, 3525, 3527, 3529, 3531, 3533, 3535, 3536, 3538, 3540, 3542, 3544, 3546, 3548, 3550,
    3551, 3553, 3555, 3557, 3559, 3561, 3562, 3564, 3566, 3568, 3570, 3571, 3573, 3575, 3577, 3578,
    3580, 3582, 3584, 3585, 3587, 3589, 3591, 3592, 3594, 3596, 3598, 3599, 3601, 3603, 3604, 3606,
];

pub const SQUASH_A: [u16; 256] = [
    3608, 3609, 3611, 3613, 3614, 3616, 3618, 3619, 3621, 3623, 3624, 3626, 3628, 3629, 3631, 3632,
    3634, 3636, 3637, 3639, 3640, 3642, 3644, 3645, 3647, 3648, 3650, 3651, 3653, 3654, 3656, 3657,
    3659, 3661, 3662, 3664, 3665, 3667, 3668, 3670, 3671, 3673, 3674, 3675, 3677, 3678, 3680, 3681,
    3683, 3684, 3686, 3687, 3689, 3690, 3691, 3693, 3694, 3696, 3697, 3698, 3700, 3701, 3703, 3704,
    3705, 3707, 3708, 3710, 3711, 3712, 3714, 3715, 3716, 3718, 3719, 3720, 3722, 3723, 3724, 3726,
    3727, 3728, 3730, 3731, 3732, 3733, 3735, 3736, 3737, 3739, 3740, 3741, 3742, 3744, 3745, 3746,
    3747, 3749, 3750, 3751, 3752, 3754, 3755, 3756, 3757, 3758, 3760, 3761, 3762, 3763, 3764, 3766,
    3767, 3768, 3769, 3770, 3772, 3773, 3774, 3775, 3776, 3777, 3778, 3780, 3781, 3782, 3783, 3784,
    3785, 3786, 3788, 3789, 3790, 3791, 3792, 3793, 3794, 3795, 3796, 3797, 3798, 3800, 3801, 3802,
    3803, 3804, 3805, 3806, 3807, 3808, 3809, 3810, 3811, 3812, 3813, 3814, 3815, 3816, 3817, 3818,
    3819, 3820, 3821, 3822, 3823, 3824, 3825, 3826, 3827, 3828, 3829, 3830, 3831, 3832, 3833, 3834,
    3835, 3836, 3837, 3838, 3839, 3840, 3841, 3842, 3843, 3843, 3844, 3845, 3846, 3847, 3848, 3849,
    3850, 3851, 3852, 3853, 3853, 3854, 3855, 3856, 3857, 3858, 3859, 3860, 3861, 3861, 3862, 3863,
    3864, 3865, 3866, 3867, 3867, 3868, 3869, 3870, 3871, 3872, 3872, 3873, 3874, 3875, 3876, 3876,
    3877, 3878, 3879, 3880, 3880, 3881, 3882, 3883, 3884, 3884, 3885, 3886, 3887, 3888, 3888, 3889,
    3890, 3891, 3891, 3892, 3893, 3894, 3894, 3895, 3896, 3897, 3897, 3898, 3899, 3900, 3900, 3901,
];

pub const SQUASH_B: [u16; 256] = [
    3902, 3902, 3903, 3904, 3905, 3905, 3906, 3907, 3907, 3908, 3909, 3910, 3910, 3911, 3912, 3912,
    3913, 3914, 3914, 3915, 3916, 3916, 3917, 3918, 3918, 3919, 3920, 3920, 3921, 3922, 3922, 3923,
    3924, 3924, 3925, 3926, 3926, 3927, 3927, 3928, 3929, 3929, 3930, 3931, 3931, 3932, 3932, 3933,
    3934, 3934, 3935, 3935, 3936, 3937, 3937, 3938, 3938, 3939, 3940, 3940, 3941, 3941, 3942, 3943,
    3943, 3944, 3944, 3945, 3945, 3946, 3947, 3947, 3948, 3948, 3949, 3949, 3950, 3950, 3951, 3952,
    3952, 3953, 3953, 3954, 3954, 3955, 3955, 3956, 3956, 3957, 3957, 3958, 3958, 3959, 3959, 3960,
    3960, 3961, 3961, 3962, 3963, 3963, 3964, 3964, 3965, 3965, 3966, 3966, 3966, 3967, 3967, 3968,
    3968, 3969, 3969, 3970, 3970, 3971, 3971, 3972, 3972, 3973, 3973, 3974, 3974, 3975, 3975, 3975,
    3976, 3976, 3977, 3977, 3978, 3978, 3979, 3979, 3980, 3980, 3980, 3981, 3981, 3982, 3982, 3983,
    3983, 3983, 3984, 3984, 3985, 3985, 3986, 3986, 3986, 3987, 3987, 3988, 3988, 3988, 3989, 3989,
    3990, 3990, 3990, 3991, 3991, 3992, 3992, 3992, 3993, 3993, 3994, 3994, 3994, 3995, 3995, 3996,
    3996, 3996, 3997, 3997, 3997, 3998, 3998, 3999, 3999, 3999, 4000, 4000, 4000, 4001, 4001, 4002,
    4002, 4002, 4003, 4003, 4003, 4004, 4004, 4004, 4005, 4005, 4005, 4006, 4006, 4006, 4007, 4007,
    4007, 4008, 4008, 4008, 4009, 4009, 4009, 4010, 4010, 4010, 4011, 4011, 4011, 4012, 4012, 4012,
    4013, 4013, 4013, 4014, 4014, 4014, 4015, 4015, 4015, 4016, 4016, 4016, 4016, 4017, 4017, 4017,
    4018, 4018, 4018, 4019, 4019, 4019, 4019, 4020, 4020, 4020, 4021, 4021, 4021, 4021, 4022, 4022,
];

pub const SQUASH_C: [u16; 256] = [
    4022, 4023, 4023, 4023, 4023, 4024, 4024, 4024, 4025, 4025, 4025, 4025, 4026, 4026, 4026, 4026,
    4027, 4027, 4027, 4028, 4028, 4028, 4028, 4029, 4029, 4029, 4029, 4030, 4030, 4030, 4030, 4031,
    4031, 4031, 4031, 4032, 4032, 4032, 4032, 4033, 4033, 4033, 4033, 4034, 4034, 4034, 4034, 4034,
    4035, 4035, 4035, 4035, 4036, 4036, 4036, 4036, 4037, 4037, 4037, 4037, 4038, 4038, 4038, 4038,
    4038, 4039, 4039, 4039, 4039, 4039, 4040, 4040, 4040, 4040, 4041, 4041, 4041, 4041, 4041, 4042,
    4042, 4042, 4042, 4042, 4043, 4043, 4043, 4043, 4043, 4044, 4044, 4044, 4044, 4044, 4045, 4045,
    4045, 4045, 4045, 4046, 4046, 4046, 4046, 4046, 4047, 4047, 4047, 4047, 4047, 4048, 4048, 4048,
    4048, 4048, 4048, 4049, 4049, 4049, 4049, 4049, 4050, 4050, 4050, 4050, 4050, 4050, 4051, 4051,
    4051, 4051, 4051, 4052, 4052, 4052, 4052, 4052, 4052, 4053, 4053, 4053, 4053, 4053, 4053, 4054,
    4054, 4054, 4054, 4054, 4054, 4055, 4055, 4055, 4055, 4055, 4055, 4055, 4056, 4056, 4056, 4056,
    4056, 4056, 4057, 4057, 4057, 4057, 4057, 4057, 4057, 4058, 4058, 4058, 4058, 4058, 4058, 4058,
    4059, 4059, 4059, 4059, 4059, 4059, 4059, 4060, 4060, 4060, 4060, 4060, 4060, 4060, 4061, 4061,
    4061, 4061, 4061, 4061, 4061, 4062, 4062, 4062, 4062, 4062, 4062, 4062, 4062, 4063, 4063, 4063,
    4063, 4063, 4063, 4063, 4063, 4064, 4064, 4064, 4064, 4064, 4064, 4064, 4064, 4065, 4065, 4065,
    4065, 4065, 4065, 4065, 4065, 4066, 4066, 4066, 4066, 4066, 4066, 4066, 4066, 4066, 4067, 4067,
    4067, 4067, 4067, 4067, 4067, 4067, 4068, 4068, 4068, 4068, 4068, 4068, 4068, 4068, 4068, 4068,
];

pub const SQUASH_D: [u16; 256] = [
    4069, 4069, 4069, 4069, 4069, 4069, 4069, 4069, 4069, 4070, 4070, 4070, 4070, 4070, 4070, 4070,
    4070, 4070, 4070, 4071, 4071, 4071, 4071, 4071, 4071, 4071, 4071, 4071, 4071, 4072, 4072, 4072,
    4072, 4072, 4072, 4072, 4072, 4072, 4072, 4072, 4073, 4073, 4073, 4073, 4073, 4073, 4073, 4073,
    4073, 4073, 4073, 4074, 4074, 4074, 4074, 4074, 4074, 4074, 4074, 4074, 4074, 4074, 4074, 4075,
    4075, 4075, 4075, 4075, 4075, 4075, 4075, 4075, 4075, 4075, 4075, 4076, 4076, 4076, 4076, 4076,
    4076, 4076, 4076, 4076, 4076, 4076, 4076, 4076, 4077, 4077, 4077, 4077, 4077, 4077, 4077, 4077,
    4077, 4077, 4077, 4077, 4077, 4077, 4078, 4078, 4078, 4078, 4078, 4078, 4078, 4078, 4078, 4078,
    4078, 4078, 4078, 4078, 4079, 4079, 4079, 4079, 4079, 4079, 4079, 4079, 4079, 4079, 4079, 4079,
    4079, 4079, 4079, 4080, 4080, 4080, 4080, 4080, 4080, 4080, 4080, 4080, 4080, 4080, 4080, 4080,
    4080, 4080, 4080, 4081, 4081, 4081, 4081, 4081, 4081, 4081, 4081, 4081, 4081, 4081, 4081, 4081,
    4081, 4081, 4081, 4081, 4082, 4082, 4082, 4082, 4082, 4082, 4082, 4082, 4082, 4082, 4082, 4082,
    4082, 4082, 4082, 4082, 4082, 4082, 4082, 4083, 4083, 4083, 4083, 4083, 4083, 4083, 4083, 4083,
    4083, 4083, 4083, 4083, 4083, 4083, 4083, 4083, 4083, 4083, 4084, 4084, 4084, 4084, 4084, 4084,
    4084, 4084, 4084, 4084, 4084, 4084, 4084, 4084, 4084, 4084, 4084, 4084, 4084, 4084, 4084, 4084,
    4085, 4085, 4085, 4085, 4085, 4085, 4085, 4085, 4085, 4085, 4085, 4085, 4085, 4085, 4085, 4085,
    4085, 4085, 4085, 4085, 4085, 4085, 4085, 4086, 4086, 4086, 4086, 4086, 4086, 4086, 4086, 4086,
];

pub const SQUASH_E: [u16; 256] = [
    4086, 4086, 4086, 4086, 4086, 4086, 4086, 4086, 4086, 4086, 4086, 4086, 4086, 4086, 4086, 4086,
    4086, 4087, 4087, 4087, 4087, 4087, 4087, 4087, 4087, 4087, 4087, 4087, 4087, 4087, 4087, 4087,
    4087, 4087, 4087, 4087, 4087, 4087, 4087, 4087, 4087, 4087, 4087, 4087, 4087, 4088, 4088, 4088,
    4088, 4088, 4088, 4088, 4088, 4088, 4088, 4088, 4088, 4088, 4088, 4088, 4088, 4088, 4088, 4088,
    4088, 4088, 4088, 4088, 4088, 4088, 4088, 4088, 4088, 4088, 4088, 4088, 4088, 4088, 4089, 4089,
    4089, 4089, 4089, 4089, 4089, 4089, 4089, 4089, 4089, 4089, 4089, 4089, 4089, 4089, 4089, 4089,
    4089, 4089, 4089, 4089, 4089, 4089, 4089, 4089, 4089, 4089, 4089, 4089, 4089, 4089, 4089, 4089,
    4089, 4089, 4090, 4090, 4090, 4090, 4090, 4090, 4090, 4090, 4090, 4090, 4090, 4090, 4090, 4090,
    4090, 4090, 4090, 4090, 4090, 4090, 4090, 4090, 4090, 4090, 4090, 4090, 4090, 4090, 4090, 4090,
    4090, 4090, 4090, 4090, 4090, 4090, 4090, 4090, 4090, 4090, 4090, 4090, 4090, 4091, 4091, 4091,
    4091, 4091, 4091, 4091, 4091, 4091, 4091, 4091, 4091, 4091, 4091, 4091, 4091, 4091, 4091, 4091,
    4091, 4091, 4091, 4091, 4091, 4091, 4091, 4091, 4091, 4091, 4091, 4091, 4091, 4091, 4091, 4091,
    4091, 4091, 4091, 4091, 4091, 4091, 4091, 4091, 4091, 4091, 4091, 4091, 4091, 4091, 4091, 4091,
    4091, 4092, 4092, 4092, 4092, 4092, 4092, 4092, 4092, 4092, 4092, 4092, 4092, 4092, 4092, 4092,
    4092, 4092, 4092, 4092, 4092, 4092, 4092, 4092, 4092, 4092, 4092, 4092, 4092, 4092, 4092, 4092,
    4092, 4092, 4092, 4092, 4092, 4092, 4092, 4092, 4092, 4092, 4092, 4092, 4092, 4092, 4092, 4092,
];

pub const SQUASH_F: [u16; 256] = [
    4092, 4092, 4092, 4092, 4092, 4092, 4092, 4092, 4092, 4092, 4092, 4092, 4092, 4092, 4092, 4092,
    4092, 4093, 4093, 4093, 4093, 4093, 4093, 4093, 4093, 4093, 4093, 4093, 4093, 4093, 4093, 4093,
    4093, 4093, 4093, 4093, 4093, 4093, 4093, 4093, 4093, 4093, 4093, 4093, 4093, 4093, 4093, 4093,
    4093, 4093, 4093, 4093, 4093, 4093, 4093, 4093, 4093, 4093, 4093, 4093, 4093, 4093, 4093, 4093,
    4093, 4093, 4093, 4093, 4093, 4093, 4093, 4093, 4093, 4093, 4093, 4093, 4093, 4093, 4093, 4093,
    4093, 4093, 4093, 4093, 4093, 4093, 4093, 4093, 4093, 4093, 4093, 4093, 4093, 4093, 4093, 4093,
    4093, 4093, 4093, 4093, 4093, 4093, 4093, 4094, 4094, 4094, 4094, 4094, 4094, 4094, 4094, 4094,
    4094, 4094, 4094, 4094, 4094, 4094, 4094, 4094, 4094, 4094, 4094, 4094, 4094, 4094, 4094, 4094,
    4094, 4094, 4094, 4094, 4094, 4094, 4094, 4094, 4094, 4094, 4094, 4094, 4094, 4094, 4094, 4094,
    4094, 4094, 4094, 4094, 4094, 4094, 4094, 4094, 4094, 4094, 4094, 4094, 4094, 4094, 4094, 4094,
    4094, 4094, 4094, 4094, 4094, 4094, 4094, 4094, 4094, 4094, 4094, 4094, 4094, 4094, 4094, 4094,
    4094, 4094, 4094, 4094, 4094, 4094, 4094, 4094, 4094, 4094, 4094, 4094, 4094, 4094, 4094, 4094,
    4094, 4094, 4094, 4094, 4094, 4094, 4094, 4094, 4094, 4094, 4094, 4094, 4094, 4094, 4094, 4094,
    4094, 4094, 4094, 4094, 4094, 4094, 4094, 4094, 4094, 4094, 4094, 4094, 4094, 4094, 4094, 4094,
    4094, 4094, 4094, 4094, 4094, 4094, 4094, 4094, 4094, 4094, 4095, 4095, 4095, 4095, 4095, 4095,
    4095, 4095, 4095, 4095, 4095, 4095, 4095, 4095, 4095, 4095, 4095, 4095, 4095, 4095, 4095, 4095,
];

} // verus!
